//! Line search: the lines of a text that hold a query string, with an
//! exact or a case-insensitive match.

use crate::trusted::{lower_of, lowercase};
use vstd::prelude::*;

verus! {

/// `needle` occurs in `hay` as a contiguous run.
pub open spec fn has_substring(hay: Seq<char>, needle: Seq<char>) -> bool {
    exists|i: int|
        0 <= i <= hay.len() - needle.len() && #[trigger] hay.subrange(i, i + needle.len())
            == needle
}

/// The position of the first line feed at or after `i`, or the length.
pub open spec fn scan_nl(s: Seq<char>, i: int) -> int
    decreases s.len() - i when 0 <= i <= s.len()
{
    if i >= s.len() {
        s.len() as int
    } else if s[i] == '\n' {
        i
    } else {
        scan_nl(s, i + 1)
    }
}

/// Bounds of the line-feed scan.
pub proof fn lemma_scan_nl(s: Seq<char>, i: int)
    requires
        0 <= i <= s.len(),
    ensures
        i <= scan_nl(s, i) <= s.len(),
        scan_nl(s, i) < s.len() ==> s[scan_nl(s, i)] == '\n',
    decreases s.len() - i,
{
    if i < s.len() && s[i] != '\n' {
        lemma_scan_nl(s, i + 1);
    }
}

/// A line with a trailing carriage return loses it.
pub open spec fn strip_cr(l: Seq<char>) -> Seq<char> {
    if l.len() > 0 && l.last() == '\r' {
        l.drop_last()
    } else {
        l
    }
}

/// The lines of `s[i..]`: split at line feeds, a carriage return before
/// a line feed is dropped, and a final line needs no line ending.
pub open spec fn lines_from(s: Seq<char>, i: int) -> Seq<Seq<char>>
    decreases s.len() - i when 0 <= i <= s.len() via lines_from_decreases
{
    if i >= s.len() {
        Seq::empty()
    } else {
        let nl = scan_nl(s, i);
        if nl >= s.len() {
            seq![s.subrange(i, s.len() as int)]
        } else {
            seq![strip_cr(s.subrange(i, nl))] + lines_from(s, nl + 1)
        }
    }
}

#[via_fn]
proof fn lines_from_decreases(s: Seq<char>, i: int) {
    lemma_scan_nl(s, i);
}

/// The lines of a text.
pub open spec fn spec_lines(s: Seq<char>) -> Seq<Seq<char>> {
    lines_from(s, 0)
}

/// The lines of `contents` that hold `query`.
pub open spec fn search_spec(query: Seq<char>, contents: Seq<char>) -> Seq<Seq<char>> {
    spec_lines(contents).filter(|l: Seq<char>| has_substring(l, query))
}

/// The lines of `contents` that hold `query` with case folded away.
pub open spec fn search_ci_spec(query: Seq<char>, contents: Seq<char>) -> Seq<Seq<char>> {
    spec_lines(contents).filter(|l: Seq<char>| has_substring(lower_of(l), lower_of(query)))
}

/// Does `hay` hold `needle` as a contiguous run?
pub fn contains_str(hay: &str, needle: &str) -> (b: bool)
    ensures
        b == has_substring(hay@, needle@),
{
    let hl = hay.unicode_len();
    let nl = needle.unicode_len();
    if nl > hl {
        assert(!has_substring(hay@, needle@));
        return false;
    }
    let mut i: usize = 0;
    while i <= hl - nl
        invariant
            0 <= i <= hl - nl + 1,
            nl <= hl,
            hl == hay@.len(),
            nl == needle@.len(),
            forall|k: int| 0 <= k < i ==> #[trigger] hay@.subrange(k, k + needle@.len()) != needle@,
        decreases hl + 1 - i,
    {
        let mut j: usize = 0;
        let mut hit = true;
        loop
            invariant_except_break
                0 <= j <= nl,
                0 <= i <= hl - nl,
                hl == hay@.len(),
                nl == needle@.len(),
                hit,
                forall|q: int| 0 <= q < j ==> hay@[i + q] == needle@[q],
            ensures
                0 <= i <= hl - nl,
                hl == hay@.len(),
                nl == needle@.len(),
                hit ==> hay@.subrange(i as int, i + needle@.len()) == needle@,
                !hit ==> hay@.subrange(i as int, i + needle@.len()) != needle@,
            decreases nl - j,
        {
            if j == nl {
                assert(hay@.subrange(i as int, i + needle@.len()) =~= needle@);
                break;
            }
            if hay.get_char(i + j) != needle.get_char(j) {
                hit = false;
                assert(hay@.subrange(i as int, i + needle@.len())[j as int] != needle@[j as int]);
                break;
            }
            j += 1;
        }
        if hit {
            return true;
        }
        proof {
            if needle@.len() == 0 {
                assert(hay@.subrange(i as int, i as int) =~= needle@);
            }
        }
        assert(nl > 0);
        i += 1;
    }
    assert forall|k: int|
        0 <= k <= hay@.len() - needle@.len() implies #[trigger] hay@.subrange(
        k,
        k + needle@.len(),
    ) != needle@ by {
        assert(k < i);
    }
    false
}

/// The position of the first line feed at or after `i`, executably.
fn find_nl(s: &str, i: usize, n: usize) -> (j: usize)
    requires
        i <= n,
        n == s@.len(),
    ensures
        j as int == scan_nl(s@, i as int),
        i <= j <= n,
        j < n ==> s@[j as int] == '\n',
{
    let mut k = i;
    loop
        invariant
            i <= k <= n,
            n == s@.len(),
            scan_nl(s@, i as int) == scan_nl(s@, k as int),
        decreases n - k,
    {
        if k == n {
            return k;
        }
        if s.get_char(k) == '\n' {
            return k;
        }
        k += 1;
    }
}

/// The lines of `contents` that hold `query`, in order.
pub fn search<'a>(query: &str, contents: &'a str) -> (r: Vec<&'a str>)
    ensures
        r.deep_view() == search_spec(query@, contents@),
{
    let ghost c = contents@;
    let ghost pred = |l: Seq<char>| has_substring(l, query@);
    let n = contents.unicode_len();
    let mut r: Vec<&'a str> = Vec::new();
    let mut cur: usize = 0;
    proof {
        assert(r.deep_view() =~= Seq::<Seq<char>>::empty());
    }
    while cur < n
        invariant
            0 <= cur <= n,
            n == c.len(),
            c == contents@,
            pred == (|l: Seq<char>| has_substring(l, query@)),
            spec_lines(c).filter(pred) == r.deep_view() + lines_from(c, cur as int).filter(pred),
        decreases n - cur,
    {
        let nl = find_nl(contents, cur, n);
        let e: usize = if nl < n && nl > cur && contents.get_char(nl - 1) == '\r' {
            nl - 1
        } else {
            nl
        };
        let line = contents.substring_char(cur, e);
        let ghost this_line = if nl < n {
            strip_cr(c.subrange(cur as int, nl as int))
        } else {
            c.subrange(cur as int, c.len() as int)
        };
        proof {
            if nl < n {
                if e < nl {
                    assert(c.subrange(cur as int, nl as int).last() == '\r');
                    assert(line@ =~= strip_cr(c.subrange(cur as int, nl as int)));
                } else {
                    assert(c.subrange(cur as int, nl as int).len() == 0 || c.subrange(
                        cur as int,
                        nl as int,
                    ).last() != '\r');
                    assert(line@ =~= strip_cr(c.subrange(cur as int, nl as int)));
                }
                assert(lines_from(c, cur as int) =~= seq![this_line] + lines_from(c, nl + 1));
            } else {
                assert(line@ =~= this_line);
                assert(lines_from(c, cur as int) =~= seq![this_line]);
            }
        }
        let keep = contains_str(line, query);
        let ghost rest = if nl < n {
            lines_from(c, nl + 1)
        } else {
            Seq::<Seq<char>>::empty()
        };
        let ghost rv_old = r.deep_view();
        proof {
            Seq::filter_distributes_over_add(seq![this_line], rest, pred);
            assert(lines_from(c, cur as int) == seq![this_line] + rest);
            reveal(Seq::filter);
            assert(seq![this_line].drop_last() =~= Seq::<Seq<char>>::empty());
            assert(seq![this_line].drop_last().filter(pred) =~= Seq::<Seq<char>>::empty());
            assert(seq![this_line].last() == this_line);
            if pred(this_line) {
                assert(seq![this_line].filter(pred) =~= seq![this_line]);
            } else {
                assert(seq![this_line].filter(pred) =~= Seq::<Seq<char>>::empty());
            }
        }
        if keep {
            r.push(line);
            proof {
                assert(r.deep_view() =~= rv_old + seq![this_line]);
                assert(rv_old + (seq![this_line] + rest.filter(pred)) =~= r.deep_view()
                    + rest.filter(pred));
            }
        } else {
            proof {
                assert(rv_old + (Seq::<Seq<char>>::empty() + rest.filter(pred)) =~= r.deep_view()
                    + rest.filter(pred));
            }
        }
        cur = if nl < n {
            nl + 1
        } else {
            n
        };
        assert(spec_lines(c).filter(pred) == r.deep_view() + lines_from(c, cur as int).filter(
            pred,
        ));
    }
    assert(lines_from(c, cur as int) =~= Seq::<Seq<char>>::empty());
    proof {
        reveal(Seq::filter);
        assert(Seq::<Seq<char>>::empty().filter(pred) =~= Seq::<Seq<char>>::empty());
        assert(r.deep_view() =~= r.deep_view() + Seq::<Seq<char>>::empty());
    }
    r
}

/// The lines of `contents` that hold `query` with case folded away, in
/// order. The match goes through `str::to_lowercase` on both sides; the
/// lines returned keep their original case.
pub fn search_case_insensitive<'a>(query: &str, contents: &'a str) -> (r: Vec<&'a str>)
    ensures
        r.deep_view() == search_ci_spec(query@, contents@),
{
    let ghost c = contents@;
    let ghost pred = |l: Seq<char>| has_substring(lower_of(l), lower_of(query@));
    let lower_q = lowercase(query);
    let n = contents.unicode_len();
    let mut r: Vec<&'a str> = Vec::new();
    let mut cur: usize = 0;
    proof {
        assert(r.deep_view() =~= Seq::<Seq<char>>::empty());
    }
    while cur < n
        invariant
            0 <= cur <= n,
            n == c.len(),
            c == contents@,
            lower_q@ == lower_of(query@),
            pred == (|l: Seq<char>| has_substring(lower_of(l), lower_of(query@))),
            spec_lines(c).filter(pred) == r.deep_view() + lines_from(c, cur as int).filter(pred),
        decreases n - cur,
    {
        let nl = find_nl(contents, cur, n);
        let e: usize = if nl < n && nl > cur && contents.get_char(nl - 1) == '\r' {
            nl - 1
        } else {
            nl
        };
        let line = contents.substring_char(cur, e);
        let ghost this_line = if nl < n {
            strip_cr(c.subrange(cur as int, nl as int))
        } else {
            c.subrange(cur as int, c.len() as int)
        };
        proof {
            if nl < n {
                if e < nl {
                    assert(c.subrange(cur as int, nl as int).last() == '\r');
                    assert(line@ =~= strip_cr(c.subrange(cur as int, nl as int)));
                } else {
                    assert(c.subrange(cur as int, nl as int).len() == 0 || c.subrange(
                        cur as int,
                        nl as int,
                    ).last() != '\r');
                    assert(line@ =~= strip_cr(c.subrange(cur as int, nl as int)));
                }
                assert(lines_from(c, cur as int) =~= seq![this_line] + lines_from(c, nl + 1));
            } else {
                assert(line@ =~= this_line);
                assert(lines_from(c, cur as int) =~= seq![this_line]);
            }
        }
        let lower_line = lowercase(line);
        let keep = contains_str(lower_line.as_str(), lower_q.as_str());
        assert(keep == pred(this_line));
        let ghost rest = if nl < n {
            lines_from(c, nl + 1)
        } else {
            Seq::<Seq<char>>::empty()
        };
        let ghost rv_old = r.deep_view();
        proof {
            Seq::filter_distributes_over_add(seq![this_line], rest, pred);
            assert(lines_from(c, cur as int) == seq![this_line] + rest);
            reveal(Seq::filter);
            assert(seq![this_line].drop_last().filter(pred) =~= Seq::<Seq<char>>::empty());
            assert(seq![this_line].last() == this_line);
            if pred(this_line) {
                assert(seq![this_line].filter(pred) =~= seq![this_line]);
            } else {
                assert(seq![this_line].filter(pred) =~= Seq::<Seq<char>>::empty());
            }
        }
        if keep {
            r.push(line);
            proof {
                assert(r.deep_view() =~= rv_old + seq![this_line]);
                assert(rv_old + (seq![this_line] + rest.filter(pred)) =~= r.deep_view()
                    + rest.filter(pred));
            }
        } else {
            proof {
                assert(rv_old + (Seq::<Seq<char>>::empty() + rest.filter(pred)) =~= r.deep_view()
                    + rest.filter(pred));
            }
        }
        cur = if nl < n {
            nl + 1
        } else {
            n
        };
        assert(spec_lines(c).filter(pred) == r.deep_view() + lines_from(c, cur as int).filter(
            pred,
        ));
    }
    assert(lines_from(c, cur as int) =~= Seq::<Seq<char>>::empty());
    proof {
        reveal(Seq::filter);
        assert(Seq::<Seq<char>>::empty().filter(pred) =~= Seq::<Seq<char>>::empty());
        assert(r.deep_view() =~= r.deep_view() + Seq::<Seq<char>>::empty());
    }
    r
}

} // verus!
