//! The worker model: how produced items reach the one consumer.
//!
//! Producers discover files, parse and match them, possibly in
//! parallel; exactly one consumer handles every item, sequentially. The
//! delivery core here is pure: it decides which walked entries become
//! work, funnels per-file item batches into the single consumer's
//! sequence without loss or duplication, and turns a failed hand-off
//! into the cooperative stop signal. The threads and the channel that
//! carry these decisions live outside the library.

use vstd::prelude::*;
use vstd::string::StrSliceExecFns;

verus! {

/// A scan-transport failure: the consumer side stopped receiving while
/// a producer still held an item.
pub enum ScanError {
    ChannelClosed,
}

/// The lazy, exhaustible sequence of items the consumer sees. It ends
/// when every producer has finished: no more items, no more senders.
pub struct Items<T> {
    pub items: Vec<T>,
}

impl<T> Items<T> {
    /// The sequence holding exactly the given items, in order.
    pub fn new(items: Vec<T>) -> (r: Items<T>)
        ensures
            r.items@ == items@,
    {
        Items { items }
    }

    /// A sequence of exactly one item.
    pub fn once(t: T) -> (r: Result<Items<T>, ScanError>)
        ensures
            r matches Ok(it) && it.items@ =~= seq![t],
    {
        let mut items = Vec::new();
        items.push(t);
        Ok(Items { items })
    }

    /// The next item, if any producer still had one.
    pub fn next(&mut self) -> (r: Option<T>)
        ensures
            match r {
                Some(t) => old(self).items@.len() > 0 && t == old(self).items@[0] && final(self).items@
                    == old(self).items@.drop_first(),
                None => old(self).items@.len() == 0 && final(self).items@ == old(self).items@,
            },
    {
        if self.items.len() > 0 {
            let t = self.items.remove(0);
            proof {
                assert(self.items@ =~= old(self).items@.drop_first());
            }
            Some(t)
        } else {
            None
        }
    }
}

/// How work items are discovered and consumed: producers run in one or
/// more separate contexts, and `consume_items` runs once, in the
/// caller's context, blocking until the producers are done. All
/// user-visible side effects belong to the consumer.
pub trait Worker {
    /// The item sent from producers to the consumer.
    type Item;

    /// Handles every produced item, sequentially.
    fn consume_items(&self, items: Items<Self::Item>) -> Result<(), ScanError>;
}

/// A worker fed by one input stream: the stream's text produces at most
/// one item, handled through the same single-consumer path.
pub trait StdInWorker: Worker {
    /// Parses the stream's whole text into at most one item.
    fn parse_stdin(&self, src: String) -> Option<Self::Item>;

    /// Feeds the text's item, if any, to the consumer.
    fn run_std_in(&self, source: String) -> Result<(), ScanError> {
        match self.parse_stdin(source) {
            Some(item) => match Items::once(item) {
                Ok(items) => self.consume_items(items),
                Err(e) => Err(e),
            },
            None => Ok(()),
        }
    }
}

/// What a producer tells the directory walker after trying to hand an
/// item over.
#[derive(PartialEq, Eq, Structural, Debug)]
pub enum WalkAction {
    /// Keep walking this branch.
    Continue,
    /// Stop walking this branch: the consumer is gone. Cooperative
    /// early termination, not an application error.
    Quit,
}

/// The sole cancellation signal: a failed hand-off (the consumer
/// stopped receiving) stops the walk of that branch; anything else
/// continues it.
pub fn walk_action_after_send(send_ok: bool) -> (a: WalkAction)
    ensures
        a == (if send_ok {
            WalkAction::Continue
        } else {
            WalkAction::Quit
        }),
{
    if send_ok {
        WalkAction::Continue
    } else {
        WalkAction::Quit
    }
}

/// The path under which a walked entry is processed: a non-file entry
/// is skipped, and a leading current-directory prefix is stripped.
pub open spec fn spec_strip_dot(p: Seq<char>) -> Seq<char> {
    if p.len() >= 2 && p[0] == '.' && p[1] == '/' {
        p.skip(2)
    } else {
        p
    }
}

/// Decides whether a walked entry becomes work: only files do, under
/// their path with any leading current-directory prefix stripped.
/// Errors of the walk itself are reported by the caller and skipped.
pub fn filter_result(is_file: bool, path: String) -> (r: Option<String>)
    ensures
        match r {
            Some(p) => is_file && p@ == spec_strip_dot(path@),
            None => !is_file,
        },
{
    if !is_file {
        return None;
    }
    let s = path.as_str();
    let n = s.unicode_len();
    if n >= 2 && s.get_char(0) == '.' && s.get_char(1) == '/' {
        let stripped = s.substring_char(2, n);
        Some(stripped.to_owned())
    } else {
        proof {
            assert(path@.subrange(2, path@.len() as int) =~= path@.skip(2));
        }
        Some(path)
    }
}

/// What a batch sequence delivers: every item of every produced batch,
/// in batch order, each exactly once. A file that produced nothing
/// contributes nothing.
pub open spec fn flatten_batches<T>(s: Seq<Option<Vec<T>>>) -> Seq<T>
    decreases s,
{
    if s.len() == 0 {
        Seq::empty()
    } else {
        (match s.first() {
            Some(v) => v@,
            None => Seq::empty(),
        }) + flatten_batches(s.drop_first())
    }
}

/// How many batches actually produced items.
pub open spec fn produced_count<T>(s: Seq<Option<Vec<T>>>) -> nat
    decreases s,
{
    if s.len() == 0 {
        0
    } else {
        (match s.first() {
            Some(v) => 1nat,
            None => 0nat,
        }) + produced_count(s.drop_first())
    }
}

/// Funnels per-file item batches into the single consumer's sequence:
/// exactly the produced items, in batch order, with zero duplicates and
/// zero drops.
pub fn collect_items<T>(batches: Vec<Option<Vec<T>>>) -> (r: Items<T>)
    ensures
        r.items@ == flatten_batches(batches@),
{
    let ghost orig = batches@;
    let mut rest = batches;
    let mut acc: Vec<T> = Vec::new();
    proof {
        assert(acc@ + flatten_batches(rest@) =~= flatten_batches(orig));
    }
    while rest.len() > 0
        invariant
            flatten_batches(orig) == acc@ + flatten_batches(rest@),
        decreases rest@.len(),
    {
        let ghost rest_pre = rest@;
        let batch = rest.remove(0);
        proof {
            assert(rest@ =~= rest_pre.drop_first());
        }
        match batch {
            Some(mut v) => {
                let ghost acc_pre = acc@;
                let ghost v_pre = v@;
                acc.append(&mut v);
                proof {
                    assert(acc@ + flatten_batches(rest@) =~= (acc_pre + v_pre) + flatten_batches(
                        rest@,
                    ));
                    assert((acc_pre + v_pre) + flatten_batches(rest@) =~= acc_pre + (v_pre
                        + flatten_batches(rest@)));
                    assert(flatten_batches(rest_pre) == v_pre + flatten_batches(rest@));
                }
            },
            None => {
                proof {
                    assert(flatten_batches(rest_pre) =~= Seq::empty() + flatten_batches(rest@));
                    assert(Seq::empty() + flatten_batches(rest@) =~= flatten_batches(rest@));
                }
            },
        }
    }
    proof {
        assert(flatten_batches(rest@) =~= Seq::<T>::empty());
        assert(acc@ + flatten_batches(rest@) =~= acc@);
    }
    Items { items: acc }
}

/// The delivery law of the scan: when each file that matches produces
/// exactly one item and the others produce none, the consumer receives
/// exactly as many items as there are matching files — no duplicates,
/// no drops — whatever the number of files walked.
pub proof fn lemma_scan_delivery_count<T>(batches: Seq<Option<Vec<T>>>)
    requires
        forall|k: int|
            0 <= k < batches.len() ==> ((#[trigger] batches[k]) matches Some(v) ==> v@.len() == 1),
    ensures
        flatten_batches(batches).len() == produced_count(batches),
    decreases batches,
{
    if batches.len() > 0 {
        assert(batches.first() == batches[0]);
        assert forall|k: int|
            0 <= k < batches.drop_first().len() implies ((#[trigger] batches.drop_first()[k])
            matches Some(v) ==> v@.len() == 1) by {
            assert(batches.drop_first()[k] == batches[k + 1]);
        }
        lemma_scan_delivery_count(batches.drop_first());
    }
}


/// What one keystroke of an interactive prompt decides: a newline takes
/// the default when one is given; a listed letter is accepted; anything
/// else asks again.
pub fn prompt_decision(input: char, letters: &str, default: Option<char>) -> (r: Option<char>)
    ensures
        r == (if input == '\n' && default is Some {
            default
        } else if letters@.contains(input) {
            Some(input)
        } else {
            None::<char>
        }),
{
    match default {
        Some(d) => {
            if input == '\n' {
                return Some(d);
            }
        },
        None => {},
    }
    if crate::text::str_has_char(letters, input) {
        Some(input)
    } else {
        None
    }
}

} // verus!
