use vstd::prelude::*;
use crate::tally::{OrderedTally, pairs_view, lemma_ordered_tally_unique};

verus! {

/// Decimal digits of `n`, most significant first, in ASCII.
pub open spec fn decimal(n: nat) -> Seq<u8>
    decreases n,
{
    if n < 10 {
        seq![(48 + n) as u8]
    } else {
        decimal(n / 10).push((48 + n % 10) as u8)
    }
}

/// `s` preceded by spaces up to `width` bytes; unchanged when already as wide.
pub open spec fn pad_left(s: Seq<u8>, width: nat) -> Seq<u8> {
    if s.len() >= width {
        s
    } else {
        Seq::new((width - s.len()) as nat, |i: int| 32u8) + s
    }
}

/// Width of the count column of the artifact.
pub const COUNT_WIDTH: usize = 7;

/// One line of the artifact: the count right-aligned, a space, the identifier.
pub open spec fn line_of(id: Seq<u8>, count: nat) -> Seq<u8> {
    pad_left(decimal(count), COUNT_WIDTH as nat) + seq![32u8] + id + seq![10u8]
}

/// The artifact for a sequence of pairs: their lines in order.
pub open spec fn artifact(v: Seq<(Seq<u8>, usize)>) -> Seq<u8>
    decreases v.len(),
{
    if v.len() == 0 {
        Seq::empty()
    } else {
        artifact(v.drop_last()) + line_of(v.last().0, v.last().1 as nat)
    }
}

/// Appends the decimal digits of `n`.
fn push_decimal(out: &mut Vec<u8>, n: usize)
    ensures
        final(out)@ == old(out)@ + decimal(n as nat),
    decreases n,
{
    if n >= 10 {
        push_decimal(out, n / 10);
    }
    let d: u8 = (n % 10) as u8;
    out.push(48u8 + d);
    proof {
        if n < 10 {
            assert(old(out)@ + decimal(n as nat) =~= old(out)@.push((48 + n) as u8));
        }
    }
    assert(final(out)@ =~= old(out)@ + decimal(n as nat));
}

/// Appends the line for one identifier and its count.
pub fn push_line(out: &mut Vec<u8>, id: &Vec<u8>, count: usize)
    ensures
        final(out)@ == old(out)@ + line_of(id@, count as nat),
{
    let mut digits: Vec<u8> = Vec::new();
    push_decimal(&mut digits, count);
    assert(digits@ =~= decimal(count as nat));
    let ghost start = out@;
    let mut pad: usize = 0;
    let width: usize = if digits.len() >= COUNT_WIDTH { 0 } else { COUNT_WIDTH - digits.len() };
    while pad < width
        invariant
            pad <= width,
            out@ == start + Seq::new(pad as nat, |i: int| 32u8),
        decreases width - pad,
    {
        out.push(32u8);
        pad = pad + 1;
        assert(out@ =~= start + Seq::new(pad as nat, |i: int| 32u8));
    }
    let mut i: usize = 0;
    while i < digits.len()
        invariant
            i <= digits@.len(),
            out@ == start + Seq::new(width as nat, |i: int| 32u8) + digits@.take(i as int),
        decreases digits@.len() - i,
    {
        out.push(digits[i]);
        i = i + 1;
        assert(out@ =~= start + Seq::new(width as nat, |i: int| 32u8) + digits@.take(i as int));
    }
    out.push(32u8);
    let mut j: usize = 0;
    while j < id.len()
        invariant
            j <= id@.len(),
            out@ == start + Seq::new(width as nat, |i: int| 32u8) + digits@ + seq![32u8]
                + id@.take(j as int),
        decreases id@.len() - j,
    {
        out.push(id[j]);
        j = j + 1;
        assert(out@ =~= start + Seq::new(width as nat, |i: int| 32u8) + digits@ + seq![32u8]
            + id@.take(j as int));
    }
    out.push(10u8);
    proof {
        assert(digits@.take(digits@.len() as int) =~= digits@);
        assert(id@.take(id@.len() as int) =~= id@);
        if digits@.len() >= COUNT_WIDTH {
            assert(Seq::new(0nat, |i: int| 32u8) + digits@ =~= digits@);
        }
        assert(pad_left(digits@, COUNT_WIDTH as nat) =~= Seq::new(width as nat, |i: int| 32u8)
            + digits@);
    }
    assert(out@ =~= start + line_of(id@, count as nat));
}

/// The bytes of the output artifact: one line per identifier, in the tally's order.
pub fn render(t: &OrderedTally) -> (r: Vec<u8>)
    ensures
        r@ == artifact(t@),
{
    let entries = t.entries();
    let mut out: Vec<u8> = Vec::new();
    let mut i: usize = 0;
    while i < entries.len()
        invariant
            i <= entries@.len(),
            pairs_view(entries@) == t@,
            out@ == artifact(t@.take(i as int)),
        decreases entries@.len() - i,
    {
        push_line(&mut out, &entries[i].0, entries[i].1);
        proof {
            let v = t@.take(i as int + 1);
            assert(v.drop_last() =~= t@.take(i as int));
            assert(v.last() == t@[i as int]);
        }
        i = i + 1;
    }
    assert(t@.take(entries@.len() as int) =~= t@);
    out
}

/// Two tallies of the same identifiers render to the same bytes.
pub proof fn lemma_artifact_deterministic(a: OrderedTally, b: OrderedTally)
    requires
        a.wf(),
        b.wf(),
        a.observed() == b.observed(),
    ensures
        a@ == b@,
        artifact(a@) == artifact(b@),
{
    a.lemma_wf();
    b.lemma_wf();
    lemma_ordered_tally_unique(a@, b@, a.observed());
}

} // verus!
