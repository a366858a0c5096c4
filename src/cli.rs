use vstd::prelude::*;

verus! {

/// Whether `s` ends with `suffix`.
pub open spec fn ends_with(s: Seq<char>, suffix: Seq<char>) -> bool {
    s.len() >= suffix.len() && s.subrange(s.len() - suffix.len(), s.len() as int) == suffix
}

/// Whether a path names a reference-based container, judged by its extension.
pub open spec fn is_reference_based_path(p: Seq<char>) -> bool {
    ends_with(p, seq!['.', 'c', 'r', 'a', 'm']) || ends_with(p, seq!['.', 'c', 'r', 'a', 'i'])
}

/// Whether `s` ends with the characters of `suffix`.
fn has_suffix(s: &str, suffix: &[char]) -> (r: bool)
    ensures
        r == ends_with(s@, suffix@),
{
    let n = s.unicode_len();
    let k = suffix.len();
    if n < k {
        return false;
    }
    let mut i: usize = 0;
    while i < k
        invariant
            n == s@.len(),
            k == suffix@.len(),
            k <= n,
            i <= k,
            forall|j: int| 0 <= j < i ==> s@[n - k + j] == suffix@[j],
        decreases k - i,
    {
        if s.get_char(n - k + i) != suffix[i] {
            assert(s@.subrange(n - k, n as int)[i as int] != suffix@[i as int]);
            return false;
        }
        i = i + 1;
    }
    assert(s@.subrange(n - k, n as int) =~= suffix@);
    true
}

/// Whether `s` consists of exactly the characters of `t`.
fn same_chars(s: &str, t: &[char]) -> (r: bool)
    ensures
        r == (s@ == t@),
{
    if s.unicode_len() != t.len() {
        return false;
    }
    let r = has_suffix(s, t);
    assert(s@.subrange(0, s@.len() as int) =~= s@);
    r
}

/// Whether `path` names a reference-based container (`.cram` or `.crai`).
pub fn is_reference_based(path: &str) -> (r: bool)
    ensures
        r == is_reference_based_path(path@),
{
    let cram: [char; 5] = ['.', 'c', 'r', 'a', 'm'];
    let crai: [char; 5] = ['.', 'c', 'r', 'a', 'i'];
    assert(cram@ =~= seq!['.', 'c', 'r', 'a', 'm']);
    assert(crai@ =~= seq!['.', 'c', 'r', 'a', 'i']);
    has_suffix(path, &cram) || has_suffix(path, &crai)
}

/// What to do with the reference argument before reading.
#[derive(Clone, Copy, Debug, PartialEq, Eq, Structural)]
pub enum ReferencePlan {
    /// Bind the given reference to the reference-based container.
    Bind,
    /// Reference-based container without a reference: proceed, with a notice that
    /// the decoder will look for one itself.
    Discover,
    /// A reference was given for a container that needs none: proceed, with a
    /// warning that it is ignored.
    Ignore,
    /// No reference given and none needed.
    Unused,
}

/// The plan for a container kind and whether a reference path was given.
pub open spec fn plan_of(reference_based: bool, reference_given: bool) -> ReferencePlan {
    if reference_based {
        if reference_given {
            ReferencePlan::Bind
        } else {
            ReferencePlan::Discover
        }
    } else if reference_given {
        ReferencePlan::Ignore
    } else {
        ReferencePlan::Unused
    }
}

/// The plan for an input path and whether a reference path was given. No
/// combination is an error.
pub fn reference_plan(input: &str, reference_given: bool) -> (r: ReferencePlan)
    ensures
        r == plan_of(is_reference_based_path(input@), reference_given),
{
    let based = is_reference_based(input);
    if based {
        if reference_given {
            ReferencePlan::Bind
        } else {
            ReferencePlan::Discover
        }
    } else if reference_given {
        ReferencePlan::Ignore
    } else {
        ReferencePlan::Unused
    }
}

/// Whether every character of `s` is an ASCII decimal digit.
pub open spec fn all_digits(s: Seq<char>) -> bool {
    forall|i: int| 0 <= i < s.len() ==> '0' <= #[trigger] s[i] && s[i] <= '9'
}

/// The number written by a string of decimal digits.
pub open spec fn digits_value(s: Seq<char>) -> nat
    decreases s.len(),
{
    if s.len() == 0 {
        0
    } else {
        digits_value(s.drop_last()) * 10 + ((s.last() as u32) - ('0' as u32)) as nat
    }
}

/// The digits of a record cap, without an optional leading `+`.
pub open spec fn cap_digits(s: Seq<char>) -> Seq<char> {
    if s.len() > 0 && s[0] == '+' {
        s.drop_first()
    } else {
        s
    }
}

/// The record cap that an argument states: a positive decimal number that fits
/// in `usize`, optionally signed with `+`.
pub open spec fn limit_value(s: Seq<char>) -> Option<usize> {
    let d = cap_digits(s);
    if d.len() > 0 && all_digits(d) && 0 < digits_value(d) <= usize::MAX {
        Some(digits_value(d) as usize)
    } else {
        None
    }
}

proof fn lemma_digits_prefix(s: Seq<char>, j: int)
    requires
        all_digits(s),
        0 <= j <= s.len(),
    ensures
        digits_value(s.take(j)) <= digits_value(s),
    decreases s.len(),
{
    if j < s.len() {
        assert(s.drop_last().take(j) =~= s.take(j));
        lemma_digits_prefix(s.drop_last(), j);
    } else {
        assert(s.take(j) =~= s);
    }
}

/// The record cap written in `s`, or `None` where `s` states none.
pub fn parse_limit(s: &str) -> (r: Option<usize>)
    ensures
        r == limit_value(s@),
{
    let n = s.unicode_len();
    let mut start: usize = 0;
    if n > 0 && s.get_char(0) == '+' {
        start = 1;
    }
    let ghost d = cap_digits(s@);
    assert(d =~= s@.subrange(start as int, n as int));
    if start == n {
        return None;
    }
    let mut acc: usize = 0;
    let mut i: usize = start;
    while i < n
        invariant
            n == s@.len(),
            start <= i <= n,
            d == s@.subrange(start as int, n as int),
            d == cap_digits(s@),
            all_digits(d.take(i - start)),
            acc == digits_value(d.take(i - start)),
        decreases n - i,
    {
        let c = s.get_char(i);
        let ghost k = i - start;
        assert(d[k] == c);
        if c < '0' || c > '9' {
            assert(!('0' <= d[k] && d[k] <= '9'));
            assert(!all_digits(d));
            return None;
        }
        let dv: usize = ((c as u32) - ('0' as u32)) as usize;
        assert(d.take(k + 1).drop_last() =~= d.take(k));
        assert(d.take(k + 1).last() == c);
        assert(all_digits(d.take(k + 1))) by {
            assert forall|j: int| 0 <= j < k + 1 implies '0' <= #[trigger] d.take(k + 1)[j]
                && d.take(k + 1)[j] <= '9' by {
                if j < k {
                    assert(d.take(k + 1)[j] == d.take(k)[j]);
                }
            }
        }
        assert(digits_value(d.take(k + 1)) == acc * 10 + dv);
        if acc > (usize::MAX - dv) / 10 {
            proof {
                assert(acc * 10 + dv > usize::MAX) by (nonlinear_arith)
                    requires
                        acc > (usize::MAX - dv) / 10,
                        dv <= 9,
                ;
                if all_digits(d) {
                    lemma_digits_prefix(d, k + 1);
                }
            }
            return None;
        }
        assert(acc * 10 + dv <= usize::MAX) by (nonlinear_arith)
            requires
                acc <= (usize::MAX - dv) / 10,
                dv <= 9,
        ;
        acc = acc * 10 + dv;
        i = i + 1;
    }
    assert(d.take(n - start) =~= d);
    if acc == 0 {
        None
    } else {
        Some(acc)
    }
}

/// Why the command line was refused.
#[derive(Clone, Copy, Debug, PartialEq, Eq, Structural)]
pub enum UsageError {
    /// No input path was given.
    MissingInput,
    /// The cap flag ends the command line.
    MissingLimitValue,
    /// The argument at this index states no record cap.
    InvalidLimit(usize),
    /// The argument at this index is a flag that is not known.
    UnknownFlag(usize),
    /// More than two positional arguments.
    TooManyPositionals,
}

/// What a run was asked to do.
pub struct Options {
    pub input: String,
    pub reference: Option<String>,
    pub limit: Option<usize>,
}

/// Plain view of an optional string.
pub open spec fn opt_str_view(o: Option<String>) -> Option<Seq<char>> {
    match o {
        Some(s) => Some(s@),
        None => None,
    }
}

/// Plain view of the options.
pub open spec fn options_view(o: Options) -> (Seq<char>, Option<Seq<char>>, Option<usize>) {
    (o.input@, opt_str_view(o.reference), o.limit)
}

/// Plain view of the arguments.
pub open spec fn args_view(args: Seq<String>) -> Seq<Seq<char>> {
    args.map_values(|a: String| a@)
}

/// `-n` or `--limit`.
pub open spec fn is_limit_flag(a: Seq<char>) -> bool {
    a == seq!['-', 'n'] || a == seq!['-', '-', 'l', 'i', 'm', 'i', 't']
}

/// Reads the arguments from index `i` on, with what was read before.
pub open spec fn parse_from(
    args: Seq<Seq<char>>,
    i: int,
    input: Option<Seq<char>>,
    reference: Option<Seq<char>>,
    limit: Option<usize>,
) -> Result<(Seq<char>, Option<Seq<char>>, Option<usize>), UsageError>
    decreases args.len() - i,
{
    if i < 0 || i >= args.len() {
        match input {
            Some(p) => Ok((p, reference, limit)),
            None => Err(UsageError::MissingInput),
        }
    } else if is_limit_flag(args[i]) {
        if i + 1 >= args.len() {
            Err(UsageError::MissingLimitValue)
        } else {
            match limit_value(args[i + 1]) {
                Some(n) => parse_from(args, i + 2, input, reference, Some(n)),
                None => Err(UsageError::InvalidLimit((i + 1) as usize)),
            }
        }
    } else if args[i].len() > 0 && args[i][0] == '-' {
        Err(UsageError::UnknownFlag(i as usize))
    } else if input is None {
        parse_from(args, i + 1, Some(args[i]), reference, limit)
    } else if reference is None {
        parse_from(args, i + 1, input, Some(args[i]), limit)
    } else {
        Err(UsageError::TooManyPositionals)
    }
}

/// The outcome of reading a command line (the program name left out).
pub open spec fn command_line_outcome(args: Seq<Seq<char>>) -> Result<
    (Seq<char>, Option<Seq<char>>, Option<usize>),
    UsageError,
> {
    parse_from(args, 0, None, None, None)
}

/// Reads the command line, the program name left out: an input path, an
/// optional reference path, and an optional record cap given as `-n N` or
/// `--limit N`. The cap may come anywhere and the last one holds.
pub fn parse_args(args: &Vec<String>) -> (r: Result<Options, UsageError>)
    ensures
        match r {
            Ok(o) => command_line_outcome(args_view(args@)) == Ok::<
                (Seq<char>, Option<Seq<char>>, Option<usize>),
                UsageError,
            >(options_view(o)),
            Err(e) => command_line_outcome(args_view(args@)) == Err::<
                (Seq<char>, Option<Seq<char>>, Option<usize>),
                UsageError,
            >(e),
        },
{
    let ghost v = args_view(args@);
    let short: [char; 2] = ['-', 'n'];
    let long: [char; 7] = ['-', '-', 'l', 'i', 'm', 'i', 't'];
    assert(short@ =~= seq!['-', 'n']);
    assert(long@ =~= seq!['-', '-', 'l', 'i', 'm', 'i', 't']);
    let mut input: Option<String> = None;
    let mut reference: Option<String> = None;
    let mut limit: Option<usize> = None;
    let mut i: usize = 0;
    while i < args.len()
        invariant
            v == args_view(args@),
            v.len() == args@.len(),
            short@ == seq!['-', 'n'],
            long@ == seq!['-', '-', 'l', 'i', 'm', 'i', 't'],
            i <= args@.len(),
            command_line_outcome(v) == parse_from(v, i as int, opt_str_view(input), opt_str_view(reference), limit),
        decreases args@.len() - i,
    {
        let a = args[i].as_str();
        assert(a@ == v[i as int]);
        if same_chars(a, &short) || same_chars(a, &long) {
            if i + 1 >= args.len() {
                return Err(UsageError::MissingLimitValue);
            }
            assert(args[i + 1 as int]@ == v[i + 1]);
            match parse_limit(args[i + 1].as_str()) {
                Some(n) => {
                    limit = Some(n);
                },
                None => {
                    return Err(UsageError::InvalidLimit(i + 1));
                },
            }
            i = i + 2;
        } else if a.unicode_len() > 0 && a.get_char(0) == '-' {
            return Err(UsageError::UnknownFlag(i));
        } else if input.is_none() {
            input = Some(args[i].clone());
            i = i + 1;
        } else if reference.is_none() {
            reference = Some(args[i].clone());
            i = i + 1;
        } else {
            return Err(UsageError::TooManyPositionals);
        }
    }
    match input {
        Some(p) => Ok(Options { input: p, reference, limit }),
        None => Err(UsageError::MissingInput),
    }
}

} // verus!
