use vstd::prelude::*;
use crate::aux::{AuxValue, AuxError, barcode_of, extract_barcode};
use crate::tally::{Tally, OrderedTally, sum_counts, is_ordered_tally_of, lemma_ordered_tally_sum};

verus! {

/// One item of the record stream: a decoded record's barcode-field lookup, or a
/// record that failed to decode.
pub enum RecordItem {
    Decoded(Result<AuxValue, AuxError>),
    Failed,
}

/// The identifiers that a stream of items yields, in order.
pub open spec fn extracted(items: Seq<RecordItem>) -> Seq<Seq<u8>>
    decreases items.len(),
{
    if items.len() == 0 {
        Seq::empty()
    } else {
        let rest = extracted(items.drop_last());
        match items.last() {
            RecordItem::Decoded(a) => match barcode_of(a) {
                Some(id) => rest.push(id),
                None => rest,
            },
            RecordItem::Failed => rest,
        }
    }
}

/// Whether an item yields an identifier.
pub open spec fn is_tagged(item: RecordItem) -> bool {
    match item {
        RecordItem::Decoded(a) => barcode_of(a) is Some,
        RecordItem::Failed => false,
    }
}

/// How many items yield an identifier.
pub open spec fn tagged_count(items: Seq<RecordItem>) -> nat
    decreases items.len(),
{
    if items.len() == 0 {
        0
    } else {
        tagged_count(items.drop_last()) + if is_tagged(items.last()) {
            1nat
        } else {
            0nat
        }
    }
}

/// How many items are decode failures.
pub open spec fn failure_count(items: Seq<RecordItem>) -> nat
    decreases items.len(),
{
    if items.len() == 0 {
        0
    } else {
        failure_count(items.drop_last()) + if items.last() is Failed {
            1nat
        } else {
            0nat
        }
    }
}

/// The most items a run reads: the cap if one is given, else the largest count
/// the machine can hold.
pub open spec fn cap_of(limit: Option<usize>) -> nat {
    match limit {
        Some(n) => n as nat,
        None => usize::MAX as nat,
    }
}

/// The items a run reads from a source that holds `source`.
pub open spec fn capped(source: Seq<RecordItem>, limit: Option<usize>) -> Seq<RecordItem> {
    if source.len() <= cap_of(limit) {
        source
    } else {
        source.take(cap_of(limit) as int)
    }
}

/// A stream yields one identifier per tagged item, and no more items of any kind
/// than it holds.
pub proof fn lemma_extracted_len(items: Seq<RecordItem>)
    ensures
        extracted(items).len() == tagged_count(items),
        tagged_count(items) <= items.len(),
        failure_count(items) <= items.len(),
    decreases items.len(),
{
    if items.len() > 0 {
        lemma_extracted_len(items.drop_last());
    }
}

/// A cap never lets more than its number of items through, and a cap at least
/// as large as the source changes nothing.
pub proof fn lemma_cap(source: Seq<RecordItem>, n: usize)
    ensures
        capped(source, Some(n)).len() <= n,
        n >= source.len() ==> capped(source, Some(n)) == capped(source, None),
{
}

/// The total of the ordered tally of a stream is the number of its items that
/// yield an identifier.
pub proof fn lemma_total_is_tagged_count(items: Seq<RecordItem>, t: OrderedTally)
    requires
        t.wf(),
        t.observed() == extracted(items),
    ensures
        sum_counts(t@) == tagged_count(items),
{
    t.lemma_wf();
    lemma_ordered_tally_sum(t@, t.observed());
    lemma_extracted_len(items);
}

/// The state of one pass over a record stream: the cap, what has been read, and
/// the tally so far.
pub struct Scan {
    limit: Option<usize>,
    consumed: usize,
    failures: usize,
    tally: Tally,
    items: Ghost<Seq<RecordItem>>,
}

impl Scan {
    /// The items accepted so far.
    pub closed spec fn items(&self) -> Seq<RecordItem> {
        self.items@
    }

    /// The cap the pass was made with.
    pub closed spec fn limit(&self) -> Option<usize> {
        self.limit
    }

    /// The tally holds what the accepted items yield, within the cap.
    pub closed spec fn wf(&self) -> bool {
        &&& self.tally.wf()
        &&& self.tally.observed() == extracted(self.items@)
        &&& self.consumed == self.items@.len()
        &&& self.items@.len() <= cap_of(self.limit)
        &&& self.failures == failure_count(self.items@)
    }

    /// A pass that has read nothing yet and stops after `limit` items, if given.
    pub fn new(limit: Option<usize>) -> (r: Scan)
        ensures
            r.wf(),
            r.limit() == limit,
            r.items() == Seq::<RecordItem>::empty(),
    {
        Scan { limit, consumed: 0, failures: 0, tally: Tally::new(), items: Ghost(Seq::empty()) }
    }

    /// Whether the pass takes another item: false once the cap is reached.
    pub fn wants_more(&self) -> (r: bool)
        requires
            self.wf(),
        ensures
            r == (self.items().len() < cap_of(self.limit())),
    {
        match self.limit {
            Some(n) => self.consumed < n,
            None => self.consumed < usize::MAX,
        }
    }

    /// Number of items read so far.
    pub fn consumed(&self) -> (r: usize)
        requires
            self.wf(),
        ensures
            r == self.items().len(),
    {
        self.consumed
    }

    /// Number of items read so far that failed to decode.
    pub fn failures(&self) -> (r: usize)
        requires
            self.wf(),
        ensures
            r == failure_count(self.items()),
    {
        self.failures
    }

    /// Takes the next item of the stream; its identifier, if any, is counted.
    pub fn accept(&mut self, item: RecordItem)
        requires
            old(self).wf(),
            old(self).items().len() < cap_of(old(self).limit()),
        ensures
            final(self).wf(),
            final(self).limit() == old(self).limit(),
            final(self).items() == old(self).items().push(item),
    {
        let ghost old_items = self.items@;
        let ghost gitem = item;
        proof {
            lemma_extracted_len(old_items);
            assert(old_items.push(gitem).drop_last() =~= old_items);
        }
        match item {
            RecordItem::Decoded(a) => {
                let ghost ga = a;
                match extract_barcode(a) {
                    Some(id) => {
                        self.tally.observe(id);
                    },
                    None => {},
                }
                proof {
                    assert(old_items.push(gitem).last() == RecordItem::Decoded(ga));
                }
            },
            RecordItem::Failed => {
                self.failures = self.failures + 1;
            },
        }
        self.consumed = self.consumed + 1;
        self.items = Ghost(old_items.push(gitem));
    }

    /// A pass over the items of `source`, in order, stopping at the cap.
    pub fn run(source: Vec<RecordItem>, limit: Option<usize>) -> (r: Scan)
        ensures
            r.wf(),
            r.limit() == limit,
            r.items() == capped(source@, limit),
    {
        let ghost src = source@;
        let mut rest = source;
        let mut rev: Vec<RecordItem> = Vec::new();
        while rest.len() > 0
            invariant
                rest@ == src.take(src.len() - rev@.len()),
                rev@.len() <= src.len(),
                forall|i: int| 0 <= i < rev@.len() ==> #[trigger] rev@[i] == src[src.len() - 1 - i],
            decreases rest@.len(),
        {
            let item = rest.pop().unwrap();
            rev.push(item);
            assert(rest@ =~= src.take(src.len() - rev@.len()));
        }
        let mut scan = Scan::new(limit);
        let ghost n = src.len();
        while rev.len() > 0 && scan.wants_more()
            invariant
                scan.wf(),
                scan.limit() == limit,
                rev@.len() <= n,
                n == src.len(),
                scan.items() == src.take(n - rev@.len()),
                forall|i: int| 0 <= i < rev@.len() ==> #[trigger] rev@[i] == src[n - 1 - i],
            decreases rev@.len(),
        {
            let ghost k = n - rev@.len();
            let item = rev.pop().unwrap();
            assert(item == src[k]);
            scan.accept(item);
            assert(src.take(k).push(src[k]) =~= src.take(k + 1));
        }
        proof {
            if rev@.len() == 0 {
                assert(src.take(n as int) =~= src);
            }
        }
        scan
    }

    /// Ends the pass: the ordered tally of every identifier read.
    pub fn finish(self) -> (r: OrderedTally)
        requires
            self.wf(),
        ensures
            r.wf(),
            r.observed() == extracted(self.items()),
            is_ordered_tally_of(r@, extracted(self.items())),
            sum_counts(r@) == tagged_count(self.items()),
    {
        let r = self.tally.finalize();
        proof {
            lemma_total_is_tagged_count(self.items@, r);
        }
        r
    }
}

} // verus!
