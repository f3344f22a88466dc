//! The pure core of the scan orchestration.
//!
//! File discovery, reading and parsing happen outside the library; what
//! is verified here is every decision made on their results: the
//! oversized-file cutoff, the combined pre-scan that records which rules
//! hit a file at all, the per-file filtering for rule-driven and
//! pattern-driven scans (including the layers injected in another
//! language), and the funneling of produced items to the one consumer.

use crate::deserialize_env::RuleRegistration;
use crate::matcher::{find_in_tree, pattern_found, rule_values, spec_pattern_found,
    spec_pattern_matches, spec_tree_has_match};
use crate::rule::{crule_wf, pattern_valid, CompiledRule, Pattern};
use crate::text::{lemma_contains_trans, line_count, spec_contains, spec_line_count, str_contains};
use crate::tree::{first_inj, node_eq, spec_first_inj, spec_injectable, texts_within, Injection,
    LangRegistry, LangSpec, Node, SyntaxTree};
use vstd::prelude::*;
use vstd::string::StrSliceExecFns;
use vstd::string::StringSliceAdditionalSpecFns;

verus! {

/// A file is rejected without parsing only when it is oversized on both
/// axes: its byte length exceeds `MAX_FILE_SIZE` and its line count
/// exceeds `MAX_LINE_COUNT`.
pub open spec fn spec_file_too_large(bytes: Seq<u8>) -> bool {
    bytes.len() > crate::MAX_FILE_SIZE && spec_line_count(bytes) > crate::MAX_LINE_COUNT as nat
}

/// Whether the scanner skips this file for size: over the byte bound
/// and over the line bound. Exceeding only one bound does not reject.
pub fn file_too_large(file_content: &str) -> (r: bool)
    ensures
        r == spec_file_too_large(file_content.spec_bytes()),
{
    let bytes = file_content.as_bytes_vec();
    bytes.len() > crate::MAX_FILE_SIZE && line_count(file_content) > crate::MAX_LINE_COUNT
}

/// Whether the scanner accepts this file's content at all: an empty
/// file is skipped, and so is an oversized one.
pub open spec fn spec_content_usable(content: &str) -> bool {
    content@.len() > 0 && !spec_file_too_large(content.spec_bytes())
}

/// One rule of a scan configuration: its id, the language it applies
/// to, and its compiled form.
pub struct ScanRule {
    pub id: String,
    pub lang: u32,
    pub rule: CompiledRule,
}

/// The rules a scan runs, compiled against one shared registry. Built
/// once per configuration load, read-only while scanning.
pub struct RuleCollection {
    pub reg: RuleRegistration,
    pub rules: Vec<ScanRule>,
}

impl RuleCollection {
    /// Every rule is well formed against the shared registry.
    pub open spec fn wf(&self) -> bool {
        &&& self.reg.wf()
        &&& forall|i: int|
            0 <= i < self.rules@.len() ==> crule_wf(
                (#[trigger] self.rules@[i]).rule,
                self.reg.locals@.len() as nat,
                self.reg.globals.rules@.len() as nat,
            )
    }

    /// Whether rule `i` has at least one hit in the tree under `root`.
    pub open spec fn spec_rule_hits(&self, i: int, root: Node) -> bool {
        spec_tree_has_match(
            rule_values(self.reg.globals.rules@),
            rule_values(self.reg.locals@),
            self.reg.locals@.len() as nat,
            self.reg.globals.rules@.len() as nat,
            self.rules@[i].rule,
            root,
        )
    }

    /// Some rule for `lang` hits the tree under `root`.
    pub open spec fn spec_any_hit(&self, lang: u32, root: Node) -> bool {
        exists|i: int|
            0 <= i < self.rules@.len() && (#[trigger] self.rules@[i]).lang == lang
                && self.spec_rule_hits(i, root)
    }
}

/// The result of the combined pre-scan of one file layer: the indices
/// of the rules that produced at least one hit, in ascending order.
pub struct PreScan {
    pub hit_set: Vec<usize>,
}

impl PreScan {
    /// `hit_set` holds exactly the indices of the rules for `lang` with
    /// at least one hit under `root`, each once, in ascending order.
    pub open spec fn describes(&self, coll: RuleCollection, lang: u32, root: Node) -> bool {
        &&& forall|k: int, k2: int|
            0 <= k < k2 < self.hit_set@.len() ==> self.hit_set@[k] < self.hit_set@[k2]
        &&& forall|k: int|
            0 <= k < self.hit_set@.len() ==> (#[trigger] self.hit_set@[k]) < coll.rules@.len()
                && coll.rules@[self.hit_set@[k] as int].lang == lang && coll.spec_rule_hits(
                self.hit_set@[k] as int,
                root,
            )
        &&& forall|i: int|
            0 <= i < coll.rules@.len() && (#[trigger] coll.rules@[i]).lang == lang
                && coll.spec_rule_hits(i, root) ==> exists|k: int|
                0 <= k < self.hit_set@.len() && self.hit_set@[k] == i
    }
}

/// The combined scan over one file layer: a single pass that records,
/// for the whole batch of rules registered for `lang`, which ones have
/// at least one hit under `root`.
pub struct CombinedScan {
    pub lang: u32,
}

impl CombinedScan {
    /// A combined scan of the rules for `lang`.
    pub fn new(lang: u32) -> (r: CombinedScan)
        ensures
            r.lang == lang,
    {
        CombinedScan { lang }
    }

    /// Computes the hit set of the batch for this scan's language.
    pub fn find(&self, coll: &RuleCollection, root: &Node) -> (r: PreScan)
        requires
            coll.wf(),
        ensures
            r.describes(*coll, self.lang, *root),
            r.hit_set@.len() == 0 <==> !coll.spec_any_hit(self.lang, *root),
    {
        let mut hit_set: Vec<usize> = Vec::new();
        let mut i: usize = 0;
        while i < coll.rules.len()
            invariant
                i <= coll.rules@.len(),
                coll.wf(),
                forall|k: int, k2: int|
                    0 <= k < k2 < hit_set@.len() ==> hit_set@[k] < hit_set@[k2],
                forall|k: int| 0 <= k < hit_set@.len() ==> (#[trigger] hit_set@[k]) < i,
                forall|k: int|
                    0 <= k < hit_set@.len() ==> (#[trigger] hit_set@[k]) < coll.rules@.len()
                        && coll.rules@[hit_set@[k] as int].lang == self.lang
                        && coll.spec_rule_hits(hit_set@[k] as int, *root),
                forall|j: int|
                    0 <= j < i && (#[trigger] coll.rules@[j]).lang == self.lang
                        && coll.spec_rule_hits(j, *root) ==> exists|k: int|
                        0 <= k < hit_set@.len() && hit_set@[k] == j,
            decreases coll.rules@.len() - i,
        {
            if coll.rules[i].lang == self.lang {
                if find_in_tree(&coll.reg, &coll.rules[i].rule, root) {
                    let ghost pre = hit_set@;
                    hit_set.push(i);
                    proof {
                        assert forall|j: int|
                            0 <= j < i + 1 && (#[trigger] coll.rules@[j]).lang == self.lang
                                && coll.spec_rule_hits(j, *root) implies exists|k: int|
                            0 <= k < hit_set@.len() && hit_set@[k] == j by {
                            if j < i {
                                let k = choose|k: int| 0 <= k < pre.len() && pre[k] == j;
                                assert(hit_set@[k] == j);
                            } else {
                                assert(hit_set@[pre.len() as int] == i);
                            }
                        }
                    }
                }
            }
            i = i + 1;
        }
        proof {
            if hit_set@.len() > 0 {
                assert(coll.rules@[hit_set@[0] as int].lang == self.lang && coll.spec_rule_hits(
                    hit_set@[0] as int,
                    *root,
                ));
            }
            if coll.spec_any_hit(self.lang, *root) {
                let w = choose|w: int|
                    0 <= w < coll.rules@.len() && (#[trigger] coll.rules@[w]).lang == self.lang
                        && coll.spec_rule_hits(w, *root);
                assert(exists|k: int| 0 <= k < hit_set@.len() && hit_set@[k] == w);
            }
        }
        PreScan { hit_set }
    }
}

/// Runs the combined pre-scan of the rules for `lang` over one layer,
/// keeping only a non-empty outcome: a layer no rule hits is dropped
/// before any detailed match extraction.
pub fn filter(coll: &RuleCollection, lang: u32, root: &Node) -> (r: Option<PreScan>)
    requires
        coll.wf(),
    ensures
        match r {
            Some(ps) => ps.describes(*coll, lang, *root) && ps.hit_set@.len() > 0
                && coll.spec_any_hit(lang, *root),
            None => !coll.spec_any_hit(lang, *root),
        },
{
    let combined = CombinedScan::new(lang);
    let pre_scan = combined.find(coll, root);
    if pre_scan.hit_set.len() == 0 {
        None
    } else {
        Some(pre_scan)
    }
}

/// The injected layers of a result list: after the first `off` entries,
/// the list holds one layer per kept language of `ks`, in order, each
/// describing the pre-scan of the first injected document of that
/// language.
pub open spec fn layers_match(
    configs: RuleCollection,
    injs: Seq<Injection>,
    langs: Seq<LangSpec>,
    ret: Seq<FileLayer>,
    off: int,
    ks: Seq<u32>,
) -> bool {
    &&& ret.len() == off + ks.len()
    &&& forall|k: int|
        0 <= k < ks.len() ==> {
            let l = ks[k];
            &&& (#[trigger] ret[off + k]).lang == l
            &&& spec_first_inj(injs, langs, l) is Some
            &&& ret[off + k].pre_scan.describes(
                configs,
                l,
                spec_first_inj(injs, langs, l)->Some_0.root,
            )
        }
}

pub proof fn lemma_layers_match_push(
    configs: RuleCollection,
    injs: Seq<Injection>,
    langs: Seq<LangSpec>,
    pre: Seq<FileLayer>,
    off: int,
    ks: Seq<u32>,
    layer: FileLayer,
    l: u32,
)
    requires
        0 <= off,
        layers_match(configs, injs, langs, pre, off, ks),
        layer.lang == l,
        spec_first_inj(injs, langs, l) is Some,
        layer.pre_scan.describes(configs, l, spec_first_inj(injs, langs, l)->Some_0.root),
    ensures
        layers_match(configs, injs, langs, pre.push(layer), off, ks.push(l)),
{
    let post = pre.push(layer);
    let ksp = ks.push(l);
    assert forall|k: int| 0 <= k < ksp.len() implies {
        let lk = ksp[k];
        &&& (#[trigger] post[off + k]).lang == lk
        &&& spec_first_inj(injs, langs, lk) is Some
        &&& post[off + k].pre_scan.describes(configs, lk, spec_first_inj(injs, langs, lk)->Some_0.root)
    } by {
        if k < ks.len() {
            assert(post[off + k] == pre[off + k]);
            assert(ksp[k] == ks[k]);
        } else {
            assert(ksp[k] == l);
            assert(post[off + k] == layer);
        }
    }
}

/// One layer of a rule-driven scan of one file: the file's path, the
/// language of the layer, and the layer's pre-scan.
pub struct FileLayer {
    pub path: String,
    pub lang: u32,
    pub pre_scan: PreScan,
}

/// Filters one file for a rule-driven scan. Unusable content (empty, or
/// oversized on both axes) yields nothing. Otherwise the result holds
/// the root layer if any rule for the root language hits it, followed
/// by one layer per injectable language whose first injected document
/// some rule hits.
#[verifier::rlimit(80)]
#[verifier::spinoff_prover]
pub fn filter_file_interactive(
    path: &String,
    content: &str,
    tree: &SyntaxTree,
    configs: &RuleCollection,
    langs: &LangRegistry,
) -> (r: Option<Vec<FileLayer>>)
    requires
        configs.wf(),
    ensures
        r is Some <==> spec_content_usable(content),
        r matches Some(v) ==> {
            let root_kept = configs.spec_any_hit(tree.lang, tree.root);
            let off: int = if root_kept {
                1
            } else {
                0
            };
            &&& forall|k: int|
                0 <= k < v@.len() ==> (#[trigger] v@[k]).path@ == path@ && v@[k].pre_scan.hit_set@.len()
                    > 0
            &&& (root_kept ==> v@.len() >= 1 && v@[0].lang == tree.lang
                && v@[0].pre_scan.describes(*configs, tree.lang, tree.root))
            &&& (match spec_injectable(langs.langs@, tree.lang) {
                Some(inj) => layers_match(
                    *configs,
                    tree.injections@,
                    langs.langs@,
                    v@,
                    off,
                    kept_langs(*configs, inj, tree.injections@, langs.langs@),
                ),
                None => v@.len() == off,
            })
        },
{
    if content.is_empty() || file_too_large(content) {
        return None;
    }
    let mut ret: Vec<FileLayer> = Vec::new();
    match filter(configs, tree.lang, &tree.root) {
        Some(ps) => {
            ret.push(FileLayer { path: path.clone(), lang: tree.lang, pre_scan: ps });
        },
        None => {},
    }
    let ghost off = ret@.len() as int;
    match langs.injectable_langs(tree.lang) {
        Some(inj) => {
            let mut i: usize = 0;
            while i < inj.len()
                invariant
                    i <= inj@.len(),
                    configs.wf(),
                    layers_match(
                        *configs,
                        tree.injections@,
                        langs.langs@,
                        ret@,
                        off,
                        kept_langs(*configs, inj@.take(i as int), tree.injections@, langs.langs@),
                    ),
                    forall|k: int|
                        0 <= k < ret@.len() ==> (#[trigger] ret@[k]).path@ == path@
                            && ret@[k].pre_scan.hit_set@.len() > 0,
                    off <= ret@.len(),
                    off == (if configs.spec_any_hit(tree.lang, tree.root) { 1int } else { 0int }),
                    configs.spec_any_hit(tree.lang, tree.root) ==> ret@.len() >= 1 && ret@[0].lang
                        == tree.lang && ret@[0].pre_scan.describes(*configs, tree.lang, tree.root),
                decreases inj@.len() - i,
            {
                let l = inj[i];
                let ghost ks_pre = kept_langs(
                    *configs,
                    inj@.take(i as int),
                    tree.injections@,
                    langs.langs@,
                );
                proof {
                    assert(inj@.take(i + 1).drop_last() =~= inj@.take(i as int));
                    assert(inj@.take(i + 1).last() == inj@[i as int]);
                }
                let ghost ks_post = kept_langs(
                    *configs,
                    inj@.take(i + 1),
                    tree.injections@,
                    langs.langs@,
                );
                match first_inj(&tree.injections, langs, l) {
                    Some(doc_root) => {
                        match filter(configs, l, doc_root) {
                            Some(ps) => {
                                let ghost pre = ret@;
                                ret.push(FileLayer { path: path.clone(), lang: l, pre_scan: ps });
                                proof {
                                    assert(ks_post == ks_pre.push(l));
                                    lemma_layers_match_push(
                                        *configs,
                                        tree.injections@,
                                        langs.langs@,
                                        pre,
                                        off,
                                        ks_pre,
                                        ret@[pre.len() as int],
                                        l,
                                    );
                                    assert(ret@ == pre.push(ret@[pre.len() as int]));
                                }
                            },
                            None => {
                                proof {
                                    assert(ks_post == ks_pre);
                                }
                            },
                        }
                    },
                    None => {
                        proof {
                            assert(ks_post == ks_pre);
                        }
                    },
                }
                i = i + 1;
            }
            proof {
                assert(inj@.take(inj@.len() as int) =~= inj@);
                assert(layers_match(
                    *configs,
                    tree.injections@,
                    langs.langs@,
                    ret@,
                    off,
                    kept_langs(*configs, inj@, tree.injections@, langs.langs@),
                ));
            }
        },
        None => {},
    }
    Some(ret)
}

/// The injectable languages of one file's root language, in declaration
/// order, that a rule-driven scan keeps: those with an injected document
/// whose first occurrence some rule for that language hits.
pub open spec fn kept_langs(
    coll: RuleCollection,
    inj: Seq<u32>,
    injs: Seq<Injection>,
    langs: Seq<LangSpec>,
) -> Seq<u32>
    decreases inj,
{
    if inj.len() == 0 {
        Seq::empty()
    } else {
        let rest = kept_langs(coll, inj.drop_last(), injs, langs);
        match spec_first_inj(injs, langs, inj.last()) {
            Some(d) => if coll.spec_any_hit(inj.last(), d.root) {
                rest.push(inj.last())
            } else {
                rest
            },
            None => rest,
        }
    }
}


/// A single atomic unit where matches happen: the file path, the parsed
/// layer, and the matcher to run on it.
pub struct MatchUnit {
    pub path: String,
    pub grep: SyntaxTree,
    pub matcher: Pattern,
}

/// A pattern survives the cheap rejection and actually hits the layer:
/// its fixed literal (when non-empty) occurs in the raw file text, and
/// the structural search finds a node.
pub open spec fn pattern_kept(p: Pattern, content: Seq<char>, root: Node) -> bool {
    (p.fixed@.len() == 0 || spec_contains(content, p.fixed@)) && spec_pattern_found(p, root)
}

/// The matcher indices a pattern-driven scan keeps, in order: those
/// whose language has an injected document and whose pattern survives
/// on it.
pub open spec fn kept_matchers(
    ms: Seq<(u32, Pattern)>,
    injs: Seq<Injection>,
    langs: Seq<LangSpec>,
    content: Seq<char>,
) -> Seq<int>
    decreases ms,
{
    if ms.len() == 0 {
        Seq::empty()
    } else {
        let rest = kept_matchers(ms.drop_last(), injs, langs, content);
        match spec_first_inj(injs, langs, ms.last().0) {
            Some(d) => if pattern_kept(ms.last().1, content, d.root) {
                rest.push(ms.len() - 1)
            } else {
                rest
            },
            None => rest,
        }
    }
}

/// One emitted unit is the unit for pattern `p` on the layer rooted at
/// `root` in language `l`.
pub open spec fn unit_ok(
    u: (MatchUnit, u32),
    path: Seq<char>,
    l: u32,
    root: Node,
    p: Pattern,
) -> bool {
    &&& u.1 == l
    &&& u.0.path@ == path
    &&& u.0.matcher == p
    &&& u.0.grep.lang == l
    &&& node_eq(u.0.grep.root, root)
    &&& u.0.grep.injections@.len() == 0
}

/// The injected units of a pattern-driven result: after the first `off`
/// entries, one unit per kept matcher index, in order.
pub open spec fn units_match(
    ms: Seq<(u32, Pattern)>,
    injs: Seq<Injection>,
    langs: Seq<LangSpec>,
    path: Seq<char>,
    ret: Seq<(MatchUnit, u32)>,
    off: int,
    ks: Seq<int>,
) -> bool {
    &&& ret.len() == off + ks.len()
    &&& forall|k: int| 0 <= k < ks.len() ==> #[trigger] unit_at(ms, injs, langs, path, ret, off, ks, k)
}

/// The `k`-th injected unit of a pattern-driven result is the unit for
/// the `k`-th kept matcher.
pub open spec fn unit_at(
    ms: Seq<(u32, Pattern)>,
    injs: Seq<Injection>,
    langs: Seq<LangSpec>,
    path: Seq<char>,
    ret: Seq<(MatchUnit, u32)>,
    off: int,
    ks: Seq<int>,
    k: int,
) -> bool {
    &&& 0 <= ks[k] < ms.len()
    &&& spec_first_inj(injs, langs, ms[ks[k]].0) is Some
    &&& unit_ok(
        ret[off + k],
        path,
        ms[ks[k]].0,
        spec_first_inj(injs, langs, ms[ks[k]].0)->Some_0.root,
        ms[ks[k]].1,
    )
}

pub proof fn lemma_units_match_push(
    ms: Seq<(u32, Pattern)>,
    injs: Seq<Injection>,
    langs: Seq<LangSpec>,
    path: Seq<char>,
    pre: Seq<(MatchUnit, u32)>,
    off: int,
    ks: Seq<int>,
    unit: (MatchUnit, u32),
    idx: int,
)
    requires
        0 <= off,
        units_match(ms, injs, langs, path, pre, off, ks),
        0 <= idx < ms.len(),
        spec_first_inj(injs, langs, ms[idx].0) is Some,
        unit_ok(unit, path, ms[idx].0, spec_first_inj(injs, langs, ms[idx].0)->Some_0.root, ms[idx].1),
    ensures
        units_match(ms, injs, langs, path, pre.push(unit), off, ks.push(idx)),
{
    let post = pre.push(unit);
    let ksp = ks.push(idx);
    assert forall|k: int| 0 <= k < ksp.len() implies #[trigger] unit_at(
        ms,
        injs,
        langs,
        path,
        post,
        off,
        ksp,
        k,
    ) by {
        if k < ks.len() {
            assert(unit_at(ms, injs, langs, path, pre, off, ks, k));
            assert(post[off + k] == pre[off + k]);
            assert(ksp[k] == ks[k]);
        } else {
            assert(ksp[k] == idx);
            assert(post[off + k] == unit);
        }
    }
    assert(post.len() == off + ksp.len());
}

/// Filters one file for a pattern-driven scan. Unusable content yields
/// nothing. Otherwise: the root matcher, if given, yields a unit exactly
/// when it survives the fixed-string rejection against the raw text and
/// structurally hits the root layer; then each (language, pattern) pair
/// in turn yields a unit exactly when that language has an injected
/// document and the pattern survives on it. For a well-compiled,
/// text-comparing pattern on a faithfully parsed layer the rejection
/// never changes the outcome (`lemma_fixed_rejection_invisible`).
#[verifier::rlimit(80)]
#[verifier::spinoff_prover]
pub fn filter_file_pattern(
    path: &String,
    content: &str,
    tree: &SyntaxTree,
    root_matcher: Option<Pattern>,
    matchers: &Vec<(u32, Pattern)>,
    langs: &LangRegistry,
) -> (r: Option<Vec<(MatchUnit, u32)>>)
    ensures
        r is Some <==> spec_content_usable(content),
        r matches Some(v) ==> {
            let root_kept = match root_matcher {
                Some(p) => pattern_kept(p, content@, tree.root),
                None => false,
            };
            let off: int = if root_kept {
                1
            } else {
                0
            };
            &&& (root_kept ==> v@.len() >= 1 && unit_ok(
                v@[0],
                path@,
                tree.lang,
                tree.root,
                root_matcher->Some_0,
            ))
            &&& units_match(
                matchers@,
                tree.injections@,
                langs.langs@,
                path@,
                v@,
                off,
                kept_matchers(matchers@, tree.injections@, langs.langs@, content@),
            )
        },
{
    if content.is_empty() || file_too_large(content) {
        return None;
    }
    let mut ret: Vec<(MatchUnit, u32)> = Vec::new();
    match root_matcher {
        Some(matcher) => {
            let fixed_ok = matcher.fixed_string().as_str().is_empty() || str_contains(
                content,
                matcher.fixed_string().as_str(),
            );
            if fixed_ok && pattern_found(&matcher, &tree.root) {
                ret.push(
                    (
                        MatchUnit {
                            path: path.clone(),
                            grep: SyntaxTree {
                                lang: tree.lang,
                                root: tree.root.deep_clone(),
                                injections: Vec::new(),
                            },
                            matcher,
                        },
                        tree.lang,
                    ),
                );
            }
        },
        None => {},
    }
    let ghost off = ret@.len() as int;
    let mut i: usize = 0;
    while i < matchers.len()
        invariant
            i <= matchers@.len(),
            off <= ret@.len(),
            units_match(
                matchers@,
                tree.injections@,
                langs.langs@,
                path@,
                ret@,
                off,
                kept_matchers(matchers@.take(i as int), tree.injections@, langs.langs@, content@),
            ),
            off == (match root_matcher {
                Some(p) => if pattern_kept(p, content@, tree.root) {
                    1int
                } else {
                    0int
                },
                None => 0int,
            }),
            (match root_matcher {
                Some(p) => pattern_kept(p, content@, tree.root),
                None => false,
            }) ==> ret@.len() >= 1 && unit_ok(
                ret@[0],
                path@,
                tree.lang,
                tree.root,
                root_matcher->Some_0,
            ),
        decreases matchers@.len() - i,
    {
        let ghost ks_pre = kept_matchers(
            matchers@.take(i as int),
            tree.injections@,
            langs.langs@,
            content@,
        );
        proof {
            assert(matchers@.take(i + 1).drop_last() =~= matchers@.take(i as int));
            assert(matchers@.take(i + 1).last() == matchers@[i as int]);
        }
        let ghost ks_post = kept_matchers(
            matchers@.take(i + 1),
            tree.injections@,
            langs.langs@,
            content@,
        );
        let i_lang = matchers[i].0;
        match first_inj(&tree.injections, langs, i_lang) {
            Some(doc_root) => {
                let matcher = matchers[i].1.duplicate();
                let fixed_ok = matcher.fixed_string().as_str().is_empty() || str_contains(
                    content,
                    matcher.fixed_string().as_str(),
                );
                if fixed_ok && pattern_found(&matcher, doc_root) {
                    let ghost pre = ret@;
                    ret.push(
                        (
                            MatchUnit {
                                path: path.clone(),
                                grep: SyntaxTree {
                                    lang: i_lang,
                                    root: doc_root.deep_clone(),
                                    injections: Vec::new(),
                                },
                                matcher,
                            },
                            i_lang,
                        ),
                    );
                    proof {
                        assert(ks_post == ks_pre.push(i as int));
                        assert(ret@ == pre.push(ret@[pre.len() as int]));
                        lemma_units_match_push(
                            matchers@,
                            tree.injections@,
                            langs.langs@,
                            path@,
                            pre,
                            off,
                            ks_pre,
                            ret@[pre.len() as int],
                            i as int,
                        );
                    }
                } else {
                    proof {
                        assert(ks_post == ks_pre);
                    }
                }
            },
            None => {
                proof {
                    assert(ks_post == ks_pre);
                }
            },
        }
        i = i + 1;
    }
    proof {
        assert(matchers@.take(matchers@.len() as int) =~= matchers@);
    }
    Some(ret)
}

} // verus!
