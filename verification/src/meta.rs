//! Reading solver settings out of a graph description's comment lines: a
//! time bound and a target list may ride along in the text, one per line,
//! behind a fixed prefix.

use vstd::prelude::*;
use vstd::string::StrSliceExecFns;

verus! {

/// The position of the first line feed at or after `i`, or the length of
/// `s` when there is none.
pub open spec fn find_nl(s: Seq<char>, i: int) -> int
    decreases s.len() - i,
{
    if i < 0 || i >= s.len() {
        s.len() as int
    } else if s[i] == '\n' {
        i
    } else {
        find_nl(s, i + 1)
    }
}

/// A line without its trailing carriage return, if it has one.
pub open spec fn strip_cr(l: Seq<char>) -> Seq<char> {
    if l.len() > 0 && l.last() == '\r' {
        l.drop_last()
    } else {
        l
    }
}

/// The lines of `s` from position `i` on: split at each line feed, a
/// trailing carriage return dropped from each line, no final empty line
/// after a trailing line feed.
pub open spec fn spec_lines(s: Seq<char>, i: int) -> Seq<Seq<char>>
    decreases s.len() + 1 - i,
        via spec_lines_decreases
{
    if i < 0 || i >= s.len() {
        Seq::empty()
    } else {
        let j = find_nl(s, i);
        seq![strip_cr(s.subrange(i, j))] + spec_lines(s, j + 1)
    }
}

#[via_fn]
proof fn spec_lines_decreases(s: Seq<char>, i: int) {
    if 0 <= i < s.len() {
        lemma_find_nl(s, i);
    }
}

/// Position and character facts about `find_nl`.
pub proof fn lemma_find_nl(s: Seq<char>, i: int)
    requires
        0 <= i <= s.len(),
    ensures
        i <= find_nl(s, i) <= s.len(),
        find_nl(s, i) < s.len() ==> s[find_nl(s, i)] == '\n',
        forall|m: int| i <= m < find_nl(s, i) ==> s[m] != '\n',
    decreases s.len() - i,
{
    if i < s.len() && s[i] != '\n' {
        lemma_find_nl(s, i + 1);
    }
}

/// The first line feed position is the one the scan stops at.
pub proof fn lemma_find_nl_at(s: Seq<char>, i: int, c: int)
    requires
        0 <= i <= c <= s.len(),
        forall|m: int| i <= m < c ==> s[m] != '\n',
        c < s.len() ==> s[c] == '\n',
    ensures
        find_nl(s, i) == c,
    decreases c - i,
{
    if i < c {
        lemma_find_nl_at(s, i + 1, c);
    }
}

/// Whether `p` is a prefix of `l`.
pub open spec fn has_prefix(l: Seq<char>, p: Seq<char>) -> bool {
    p.len() <= l.len() && l.subrange(0, p.len() as int) == p
}

/// Whether `c` is a white-space character (the White_Space set that
/// `str::trim` removes).
pub open spec fn is_space(c: char) -> bool {
    let u = c as int;
    (9 <= u && u <= 13) || u == 0x20 || u == 0x85 || u == 0xA0 || u == 0x1680
        || (0x2000 <= u && u <= 0x200A) || u == 0x2028 || u == 0x2029 || u == 0x202F
        || u == 0x205F || u == 0x3000
}

/// `s` without its leading white space.
pub open spec fn trim_start(s: Seq<char>) -> Seq<char>
    decreases s.len(),
{
    if s.len() > 0 && is_space(s[0]) {
        trim_start(s.drop_first())
    } else {
        s
    }
}

/// `s` without its trailing white space.
pub open spec fn trim_end(s: Seq<char>) -> Seq<char>
    decreases s.len(),
{
    if s.len() > 0 && is_space(s.last()) {
        trim_end(s.drop_last())
    } else {
        s
    }
}

/// `s` without leading and trailing white space.
pub open spec fn trim_spec(s: Seq<char>) -> Seq<char> {
    trim_end(trim_start(s))
}

/// Whether `c` is a decimal digit.
pub open spec fn is_digit(c: char) -> bool {
    '0' <= c && c <= '9'
}

/// Whether every character of `s` is a decimal digit.
pub open spec fn all_digits(s: Seq<char>) -> bool {
    forall|i: int| 0 <= i < s.len() ==> is_digit(#[trigger] s[i])
}

/// The value of a digit string.
pub open spec fn digits_val(s: Seq<char>) -> int
    decreases s.len(),
{
    if s.len() == 0 {
        0
    } else {
        digits_val(s.drop_last()) * 10 + (s.last() as int - '0' as int)
    }
}

/// How `str::parse::<usize>` reads `s`: an optional leading plus sign,
/// then at least one decimal digit, the value no larger than the type
/// holds.
pub open spec fn parse_usize_spec(s: Seq<char>) -> Option<usize> {
    let body = if s.len() > 0 && s[0] == '+' {
        s.drop_first()
    } else {
        s
    };
    if body.len() > 0 && all_digits(body) && digits_val(body) <= usize::MAX {
        Some(digits_val(body) as usize)
    } else {
        None
    }
}

/// The value of a digit string is not negative.
pub proof fn lemma_digits_val_nonneg(s: Seq<char>)
    requires
        all_digits(s),
    ensures
        digits_val(s) >= 0,
    decreases s.len(),
{
    if s.len() > 0 {
        assert(all_digits(s.drop_last())) by {
            assert(forall|i: int|
                0 <= i < s.len() - 1 ==> #[trigger] s.drop_last()[i] == s[i]);
        }
        lemma_digits_val_nonneg(s.drop_last());
        assert(is_digit(s.last()));
    }
}

/// A digit string is worth at least any of its prefixes.
pub proof fn lemma_digits_val_prefix(s: Seq<char>, i: int)
    requires
        all_digits(s),
        0 <= i <= s.len(),
    ensures
        digits_val(s.take(i)) <= digits_val(s),
    decreases s.len() - i,
{
    if i < s.len() {
        lemma_digits_val_prefix(s, i + 1);
        let t = s.take(i + 1);
        assert(t.drop_last() =~= s.take(i));
        assert(all_digits(s.take(i))) by {
            assert(forall|m: int| 0 <= m < i ==> #[trigger] s.take(i)[m] == s[m]);
        }
        lemma_digits_val_nonneg(s.take(i));
        assert(is_digit(t.last()));
        assert(digits_val(t) == digits_val(s.take(i)) * 10 + (t.last() as int - '0' as int));
        assert(t.last() as int - '0' as int >= 0);
        assert(digits_val(s.take(i)) * 10 >= digits_val(s.take(i))) by (nonlinear_arith)
            requires digits_val(s.take(i)) >= 0;
    } else {
        assert(s.take(i) =~= s);
    }
}

/// The first line carrying `prefix` and, after it, white space around a
/// readable number: that number; none when no line has one.
pub open spec fn scan_time_bound(ls: Seq<Seq<char>>, prefix: Seq<char>) -> Option<usize>
    decreases ls.len(),
{
    if ls.len() == 0 {
        None
    } else if has_prefix(ls[0], prefix)
        && parse_usize_spec(trim_spec(ls[0].skip(prefix.len() as int))) is Some {
        parse_usize_spec(trim_spec(ls[0].skip(prefix.len() as int)))
    } else {
        scan_time_bound(ls.drop_first(), prefix)
    }
}

/// What follows `prefix` on the first line carrying it, with white space
/// trimmed; none when no line carries it.
pub open spec fn scan_tag(ls: Seq<Seq<char>>, prefix: Seq<char>) -> Option<Seq<char>>
    decreases ls.len(),
{
    if ls.len() == 0 {
        None
    } else if has_prefix(ls[0], prefix) {
        Some(trim_spec(ls[0].skip(prefix.len() as int)))
    } else {
        scan_tag(ls.drop_first(), prefix)
    }
}

/// The characters of a string, in order.
#[verifier::loop_isolation(false)]
fn chars_of(s: &str) -> (r: Vec<char>)
    ensures
        r@ == s@,
{
    let n: usize = s.unicode_len();
    let mut out: Vec<char> = Vec::new();
    let mut i: usize = 0;
    while i < n
        invariant
            i <= n,
            out@.len() == i,
            forall|j: int| 0 <= j < i ==> out@[j] == s@[j],
        decreases n - i,
    {
        out.push(s.get_char(i));
        i += 1;
    }
    proof {
        assert(out@ =~= s@);
    }
    out
}

/// Whether `c` is white space.
fn is_space_char(c: char) -> (r: bool)
    ensures
        r == is_space(c),
{
    let u = c as u32;
    (9 <= u && u <= 13) || u == 0x20 || u == 0x85 || u == 0xA0 || u == 0x1680
        || (0x2000 <= u && u <= 0x200A) || u == 0x2028 || u == 0x2029 || u == 0x202F
        || u == 0x205F || u == 0x3000
}

/// Reads the decimal number in `cs[lo..hi]` as `str::parse::<usize>`
/// would.
#[verifier::loop_isolation(false)]
fn parse_decimal(cs: &Vec<char>, lo: usize, hi: usize) -> (r: Option<usize>)
    requires
        lo <= hi <= cs@.len(),
    ensures
        r == parse_usize_spec(cs@.subrange(lo as int, hi as int)),
{
    let ghost whole = cs@.subrange(lo as int, hi as int);
    let body_lo: usize = if hi > lo && cs[lo] == '+' {
        lo + 1
    } else {
        lo
    };
    let ghost body = cs@.subrange(body_lo as int, hi as int);
    proof {
        if hi > lo && cs@[lo as int] == '+' {
            assert(whole.drop_first() =~= body);
        } else {
            assert(whole =~= body);
        }
    }
    if body_lo == hi {
        return None;
    }
    let mut acc: usize = 0;
    let mut q: usize = body_lo;
    while q < hi
        invariant
            body_lo <= q <= hi,
            all_digits(cs@.subrange(body_lo as int, q as int)),
            acc == digits_val(cs@.subrange(body_lo as int, q as int)),
        decreases hi - q,
    {
        let c = cs[q];
        let ghost sofar = cs@.subrange(body_lo as int, q as int);
        proof {
            assert(cs@.subrange(body_lo as int, q + 1).drop_last() =~= sofar);
            assert(cs@.subrange(body_lo as int, q + 1).last() == cs@[q as int]);
        }
        if !(c >= '0' && c <= '9') {
            proof {
                assert(body[q - body_lo] == cs@[q as int]);
                assert(!all_digits(body));
            }
            return None;
        }
        let d: usize = ((c as u32) - 48) as usize;
        proof {
            assert(d == c as int - '0' as int);
            assert(d <= 9);
        }
        if acc > (usize::MAX - d) / 10 {
            proof {
                let next = cs@.subrange(body_lo as int, q + 1);
                assert(all_digits(next));
                assert(digits_val(next) == acc * 10 + d);
                assert(acc * 10 + d > usize::MAX) by (nonlinear_arith)
                    requires
                        acc > (usize::MAX - d) / 10,
                        d <= 9,
                ;
                if all_digits(body) && digits_val(body) <= usize::MAX {
                    lemma_digits_val_prefix(body, q + 1 - body_lo);
                    assert(body.take(q + 1 - body_lo) =~= next);
                }
            }
            return None;
        }
        proof {
            assert(acc * 10 + d <= usize::MAX) by (nonlinear_arith)
                requires
                    acc <= (usize::MAX - d) / 10,
                    d <= 9,
            ;
        }
        acc = acc * 10 + d;
        q += 1;
    }
    proof {
        assert(cs@.subrange(body_lo as int, hi as int) =~= body);
        lemma_digits_val_nonneg(body);
    }
    Some(acc)
}

/// The first index at or after `lo` and before `hi` holding a character
/// that is not white space, or `hi`.
#[verifier::loop_isolation(false)]
fn skip_space_forward(cs: &Vec<char>, lo: usize, hi: usize) -> (r: usize)
    requires
        lo <= hi <= cs@.len(),
    ensures
        lo <= r <= hi,
        trim_start(cs@.subrange(lo as int, hi as int))
            == trim_start(cs@.subrange(r as int, hi as int)),
        r < hi ==> !is_space(cs@[r as int]),
        trim_start(cs@.subrange(r as int, hi as int)) == cs@.subrange(r as int, hi as int),
{
    let mut p: usize = lo;
    while p < hi && is_space_char(cs[p])
        invariant
            lo <= p <= hi,
            trim_start(cs@.subrange(lo as int, hi as int))
                == trim_start(cs@.subrange(p as int, hi as int)),
        decreases hi - p,
    {
        proof {
            assert(cs@.subrange(p as int, hi as int).drop_first()
                =~= cs@.subrange(p + 1, hi as int));
        }
        p += 1;
    }
    p
}

/// The last bound after `lo` and at most `hi` such that the character
/// just before it is not white space, or `lo`.
#[verifier::loop_isolation(false)]
fn skip_space_backward(cs: &Vec<char>, lo: usize, hi: usize) -> (r: usize)
    requires
        lo <= hi <= cs@.len(),
    ensures
        lo <= r <= hi,
        trim_end(cs@.subrange(lo as int, hi as int))
            == trim_end(cs@.subrange(lo as int, r as int)),
        trim_end(cs@.subrange(lo as int, r as int)) == cs@.subrange(lo as int, r as int),
{
    let mut p: usize = hi;
    while p > lo && is_space_char(cs[p - 1])
        invariant
            lo <= p <= hi,
            trim_end(cs@.subrange(lo as int, hi as int))
                == trim_end(cs@.subrange(lo as int, p as int)),
        decreases p,
    {
        proof {
            assert(cs@.subrange(lo as int, p as int).drop_last()
                =~= cs@.subrange(lo as int, p - 1));
        }
        p -= 1;
    }
    p
}

/// Whether the characters of `ps` all stand in `cs` beginning at
/// position `at`.
#[verifier::loop_isolation(false)]
fn chars_match_at(cs: &Vec<char>, at: usize, ps: &Vec<char>) -> (r: bool)
    requires
        at + ps@.len() <= cs@.len(),
    ensures
        r <==> (forall|m: int| 0 <= m < ps@.len() ==> cs@[at + m] == ps@[m]),
{
    let mut q: usize = 0;
    let plen: usize = ps.len();
    let clen: usize = cs.len();
    while q < plen
        invariant
            q <= plen,
            at + plen <= clen,
            forall|m: int| 0 <= m < q ==> cs@[at + m] == ps@[m],
        decreases plen - q,
    {
        if cs[at + q] != ps[q] {
            return false;
        }
        q += 1;
    }
    true
}

/// Scans the lines of `content` for the first one that carries `prefix`
/// followed by a readable number, as `scan_time_bound` describes.
#[verifier::loop_isolation(false)]
fn time_bound_in_lines(content: &str, prefix: &str) -> (r: Option<usize>)
    ensures
        r == scan_time_bound(spec_lines(content@, 0), prefix@),
{
    let cs = chars_of(content);
    let ps = chars_of(prefix);
    let n: usize = cs.len();
    let plen: usize = ps.len();
    let mut start: usize = 0;
    while start < n
        invariant
            scan_time_bound(spec_lines(cs@, 0), ps@)
                == scan_time_bound(spec_lines(cs@, start as int), ps@),
            n == cs@.len(),
            plen == ps@.len(),
        decreases n - start,
    {
        let mut j: usize = start;
        while j < n && cs[j] != '\n'
            invariant
                start <= j <= n,
                forall|m: int| start <= m < j ==> cs@[m] != '\n',
            decreases n - j,
        {
            j += 1;
        }
        proof {
            lemma_find_nl_at(cs@, start as int, j as int);
        }
        let end2: usize = if j > start && cs[j - 1] == '\r' {
            j - 1
        } else {
            j
        };
        let ghost lv = strip_cr(cs@.subrange(start as int, j as int));
        proof {
            if j > start && cs@[j - 1] == '\r' {
                assert(cs@.subrange(start as int, j as int).drop_last()
                    =~= cs@.subrange(start as int, end2 as int));
            }
            assert(lv =~= cs@.subrange(start as int, end2 as int));
            assert(spec_lines(cs@, start as int)
                == seq![lv] + spec_lines(cs@, j + 1));
            assert((seq![lv] + spec_lines(cs@, j + 1))[0] == lv);
            assert((seq![lv] + spec_lines(cs@, j + 1)).drop_first()
                =~= spec_lines(cs@, j + 1));
        }
        // does the line carry the prefix?
        let matches_prefix = end2 - start >= plen && chars_match_at(&cs, start, &ps);
        proof {
            if matches_prefix {
                assert(lv.subrange(0, plen as int) =~= ps@);
                assert(has_prefix(lv, ps@));
            } else if end2 - start >= plen {
                let m = choose|m: int| 0 <= m < plen && cs@[start + m] != ps@[m];
                assert(lv.subrange(0, plen as int)[m] == cs@[start + m]);
                assert(!has_prefix(lv, ps@));
            } else {
                assert(!has_prefix(lv, ps@));
            }
        }
        if matches_prefix {
            let ghost rest0 = lv.skip(plen as int);
            proof {
                assert(rest0 =~= cs@.subrange(start + plen, end2 as int));
            }
            let lo = skip_space_forward(&cs, start + plen, end2);
            let hi = skip_space_backward(&cs, lo, end2);
            proof {
                assert(trim_spec(rest0) == cs@.subrange(lo as int, hi as int));
            }
            let parsed = parse_decimal(&cs, lo, hi);
            match parsed {
                Some(v) => {
                    return Some(v);
                },
                None => {},
            }
        }
        if j < n {
            start = j + 1;
        } else {
            proof {
                assert(spec_lines(cs@, j + 1) =~= spec_lines(cs@, n as int));
            }
            start = n;
        }
    }
    proof {
        assert(spec_lines(cs@, start as int) =~= Seq::<Seq<char>>::empty());
    }
    None
}

/// Reads the time bound that a graph description carries in a comment
/// line of the form the solver's inputs use.
pub fn extract_time_bound_from_tg_content(content: &str) -> (r: Option<usize>)
    ensures
        r == scan_time_bound(spec_lines(content@, 0), "// time_bound: "@),
{
    time_bound_in_lines(content, "// time_bound: ")
}

/// Reads the time bound that a companion metadata file states on a line
/// of its own.
pub fn time_bound_from_meta_content(content: &str) -> (r: Option<usize>)
    ensures
        r == scan_time_bound(spec_lines(content@, 0), "time_bound: "@),
{
    time_bound_in_lines(content, "time_bound: ")
}

/// Reads the target list that a graph description carries in a comment
/// line, trimmed, as text.
#[verifier::loop_isolation(false)]
pub fn extract_targets_from_tg_content(content: &str) -> (r: Option<String>)
    ensures
        match r {
            Some(ids) => scan_tag(spec_lines(content@, 0), "// targets: "@) == Some(ids@),
            None => scan_tag(spec_lines(content@, 0), "// targets: "@) is None,
        },
{
    let cs = chars_of(content);
    let ps = chars_of("// targets: ");
    let n: usize = cs.len();
    let plen: usize = ps.len();
    let mut start: usize = 0;
    while start < n
        invariant
            scan_tag(spec_lines(cs@, 0), ps@)
                == scan_tag(spec_lines(cs@, start as int), ps@),
            n == cs@.len(),
            plen == ps@.len(),
        decreases n - start,
    {
        let mut j: usize = start;
        while j < n && cs[j] != '\n'
            invariant
                start <= j <= n,
                forall|m: int| start <= m < j ==> cs@[m] != '\n',
            decreases n - j,
        {
            j += 1;
        }
        proof {
            lemma_find_nl_at(cs@, start as int, j as int);
        }
        let end2: usize = if j > start && cs[j - 1] == '\r' {
            j - 1
        } else {
            j
        };
        let ghost lv = strip_cr(cs@.subrange(start as int, j as int));
        proof {
            if j > start && cs@[j - 1] == '\r' {
                assert(cs@.subrange(start as int, j as int).drop_last()
                    =~= cs@.subrange(start as int, end2 as int));
            }
            assert(lv =~= cs@.subrange(start as int, end2 as int));
            assert(spec_lines(cs@, start as int)
                == seq![lv] + spec_lines(cs@, j + 1));
            assert((seq![lv] + spec_lines(cs@, j + 1))[0] == lv);
            assert((seq![lv] + spec_lines(cs@, j + 1)).drop_first()
                =~= spec_lines(cs@, j + 1));
        }
        let matches_prefix = end2 - start >= plen && chars_match_at(&cs, start, &ps);
        proof {
            if matches_prefix {
                assert(lv.subrange(0, plen as int) =~= ps@);
                assert(has_prefix(lv, ps@));
            } else if end2 - start >= plen {
                let m = choose|m: int| 0 <= m < plen && cs@[start + m] != ps@[m];
                assert(lv.subrange(0, plen as int)[m] == cs@[start + m]);
                assert(!has_prefix(lv, ps@));
            } else {
                assert(!has_prefix(lv, ps@));
            }
        }
        if matches_prefix {
            let ghost rest0 = lv.skip(plen as int);
            proof {
                assert(rest0 =~= cs@.subrange(start + plen, end2 as int));
            }
            let lo = skip_space_forward(&cs, start + plen, end2);
            let hi = skip_space_backward(&cs, lo, end2);
            proof {
                assert(trim_spec(rest0) == cs@.subrange(lo as int, hi as int));
            }
            let out = content.substring_char(lo, hi).to_owned();
            return Some(out);
        }
        if j < n {
            start = j + 1;
        } else {
            proof {
                assert(spec_lines(cs@, j + 1) =~= spec_lines(cs@, n as int));
            }
            start = n;
        }
    }
    proof {
        assert(spec_lines(cs@, start as int) =~= Seq::<Seq<char>>::empty());
    }
    None
}

} // verus!
