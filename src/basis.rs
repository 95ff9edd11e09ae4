//! Reading a basis: one element per line.
use vstd::prelude::*;

verus! {

broadcast use vstd::string::axiom_spec_iter, vstd::string::next_postcondition;

/// Unicode white space, as `char::is_whitespace` defines it.
pub open spec fn is_ws(c: char) -> bool {
    ||| c == ' ' || c == '\t' || c == '\n' || c == '\u{0B}' || c == '\u{0C}' || c == '\r'
    ||| c == '\u{85}' || c == '\u{A0}' || c == '\u{1680}'
    ||| ('\u{2000}' <= c && c <= '\u{200A}')
    ||| c == '\u{2028}' || c == '\u{2029}' || c == '\u{202F}' || c == '\u{205F}' || c == '\u{3000}'
}

/// `s` without its leading white space.
pub open spec fn trim_front(s: Seq<char>) -> Seq<char>
    decreases s.len(),
{
    if s.len() > 0 && is_ws(s[0]) {
        trim_front(s.drop_first())
    } else {
        s
    }
}

/// `s` without its trailing white space.
pub open spec fn trim_back(s: Seq<char>) -> Seq<char>
    decreases s.len(),
{
    if s.len() > 0 && is_ws(s.last()) {
        trim_back(s.drop_last())
    } else {
        s
    }
}

/// `s` without leading and trailing white space.
pub open spec fn trim(s: Seq<char>) -> Seq<char> {
    trim_back(trim_front(s))
}

/// The pieces of `s` between line feeds, in order (one more than there are
/// line feeds).
pub open spec fn segments(s: Seq<char>) -> Seq<Seq<char>>
    decreases s.len(),
{
    if s.len() == 0 {
        seq![Seq::empty()]
    } else if s.last() == '\n' {
        segments(s.drop_last()).push(Seq::empty())
    } else {
        let seg = segments(s.drop_last());
        seg.update(seg.len() - 1, seg.last().push(s.last()))
    }
}

/// The lines of `s`: its pieces between line feeds, without a last empty
/// one.
pub open spec fn lines(s: Seq<char>) -> Seq<Seq<char>> {
    let seg = segments(s);
    if seg.last().len() == 0 {
        seg.drop_last()
    } else {
        seg
    }
}

proof fn lemma_segments_nonempty(s: Seq<char>)
    ensures
        segments(s).len() >= 1,
    decreases s.len(),
{
    if s.len() > 0 {
        lemma_segments_nonempty(s.drop_last());
    }
}

/// Relies on the `FromIterator<char>` impl of `String` (`collect`): the
/// string of the given characters, in order.
#[verifier::external_body]
pub(crate) fn string_of(chars: &Vec<char>) -> (r: String)
    ensures
        r@ == chars@,
{
    chars.iter().collect()
}

/// Whether `c` is white space.
pub fn whitespace(c: char) -> (r: bool)
    ensures
        r == is_ws(c),
{
    c == ' ' || c == '\t' || c == '\n' || c == '\u{0B}' || c == '\u{0C}' || c == '\r' || c == '\u{85}'
        || c == '\u{A0}' || c == '\u{1680}' || ('\u{2000}' <= c && c <= '\u{200A}') || c == '\u{2028}'
        || c == '\u{2029}' || c == '\u{202F}' || c == '\u{205F}' || c == '\u{3000}'
}

proof fn lemma_trim_front_skip(s: Seq<char>, a: int)
    requires
        0 <= a <= s.len(),
        forall|j: int| 0 <= j < a ==> is_ws(s[j]),
    ensures
        trim_front(s) == trim_front(s.subrange(a, s.len() as int)),
    decreases a,
{
    if a > 0 {
        assert(s.drop_first() =~= s.subrange(1, s.len() as int));
        lemma_trim_front_skip(s.drop_first(), a - 1);
        assert(s.drop_first().subrange(a - 1, s.drop_first().len() as int) =~= s.subrange(a, s.len() as int));
    } else {
        assert(s.subrange(0, s.len() as int) =~= s);
    }
}

proof fn lemma_trim_back_skip(s: Seq<char>, b: int)
    requires
        0 <= b <= s.len(),
        forall|j: int| b <= j < s.len() ==> is_ws(s[j]),
    ensures
        trim_back(s) == trim_back(s.subrange(0, b)),
    decreases s.len() - b,
{
    if b < s.len() {
        assert(s.drop_last() =~= s.subrange(0, s.len() - 1));
        lemma_trim_back_skip(s.drop_last(), b);
        assert(s.drop_last().subrange(0, b) =~= s.subrange(0, b));
    } else {
        assert(s.subrange(0, b) =~= s);
    }
}

/// `line` without leading and trailing white space, as a string.
fn trimmed(line: &Vec<char>) -> (r: String)
    ensures
        r@ == trim(line@),
{
    let n = line.len();
    let mut a: usize = 0;
    while a < n && whitespace(line[a])
        invariant
            a <= n == line@.len(),
            forall|j: int| 0 <= j < a ==> is_ws(line@[j]),
        decreases n - a,
    {
        a = a + 1;
    }
    let mut b: usize = n;
    while b > a && whitespace(line[b - 1])
        invariant
            a <= b <= n == line@.len(),
            forall|j: int| b <= j < n ==> is_ws(line@[j]),
        decreases b,
    {
        b = b - 1;
    }
    let mut out: Vec<char> = Vec::new();
    let mut j: usize = a;
    while j < b
        invariant
            a <= j <= b <= n == line@.len(),
            out@ == line@.subrange(a as int, j as int),
        decreases b - j,
    {
        out.push(line[j]);
        j = j + 1;
        proof { assert(out@ =~= line@.subrange(a as int, j as int)); }
    }
    proof {
        let s = line@;
        lemma_trim_front_skip(s, a as int);
        let f = s.subrange(a as int, n as int);
        if a < n {
            assert(!is_ws(s[a as int]));
            assert(f[0] == s[a as int]);
        }
        assert(trim_front(f) == f);
        assert forall|j: int| b - a <= j < f.len() implies is_ws(f[j]) by {
            assert(f[j] == s[j + a]);
        }
        lemma_trim_back_skip(f, b - a);
        let g = f.subrange(0, b - a);
        assert(g =~= s.subrange(a as int, b as int));
        if b > a {
            assert(g.last() == s[b - 1]);
        }
        assert(trim_back(g) == g);
    }
    string_of(&out)
}

/// The basis in `s`: each line of `s`, without leading and trailing white
/// space, in order.
pub fn basis_parser(s: String) -> (r: Vec<String>)
    ensures
        r@.len() == lines(s@).len(),
        forall|j: int| 0 <= j < r@.len() ==> (#[trigger] r@[j])@ == trim(lines(s@)[j]),
{
    let ghost all = s@;
    let mut it = s.chars();
    let mut out: Vec<String> = Vec::new();
    let mut cur: Vec<char> = Vec::new();
    let ghost mut k: int = 0;
    proof { lemma_segments_nonempty(all.take(0)); }
    loop
        invariant
            0 <= k <= all.len(),
            vstd::std_specs::iter::IteratorSpec::remaining(&it) == all.subrange(k, all.len() as int),
            segments(all.take(k)) == segments(all.take(k)).drop_last().push(cur@),
            out@.len() == segments(all.take(k)).len() - 1,
            forall|j: int| 0 <= j < out@.len() ==> (#[trigger] out@[j])@ == trim(segments(all.take(k))[j]),
        ensures
            k == all.len(),
            segments(all.take(k)) == segments(all.take(k)).drop_last().push(cur@),
            out@.len() == segments(all.take(k)).len() - 1,
            forall|j: int| 0 <= j < out@.len() ==> (#[trigger] out@[j])@ == trim(segments(all.take(k))[j]),
        decreases all.len() - k,
    {
        let ghost before = all.take(k);
        proof { lemma_segments_nonempty(before); }
        match it.next() {
            Some(c) => {
                proof {
                    assert(c == all[k]);
                    assert(all.take(k + 1).drop_last() =~= before);
                    assert(all.take(k + 1).last() == c);
                    k = k + 1;
                }
                if c == '\n' {
                    let line = trimmed(&cur);
                    out.push(line);
                    cur = Vec::new();
                    proof {
                        let seg = segments(all.take(k));
                        assert(seg == segments(before).push(Seq::empty()));
                        assert(seg.drop_last().push(cur@) =~= seg);
                        assert forall|j: int| 0 <= j < out@.len() implies (#[trigger] out@[j])@ == trim(seg[j]) by {
                            if j < out@.len() - 1 {
                                assert(seg[j] == segments(before)[j]);
                            } else {
                                assert(seg[j] == segments(before).last());
                            }
                        }
                    }
                } else {
                    let ghost cb = cur@;
                    cur.push(c);
                    proof {
                        let sb = segments(before);
                        let seg = segments(all.take(k));
                        assert(seg == sb.update(sb.len() - 1, sb.last().push(c)));
                        assert(sb.last() == cb);
                        assert(seg.drop_last().push(cur@) =~= seg);
                        assert forall|j: int| 0 <= j < out@.len() implies (#[trigger] out@[j])@ == trim(seg[j]) by {
                            assert(seg[j] == sb[j]);
                        }
                    }
                }
            },
            None => {
                proof {
                    assert(all.subrange(k, all.len() as int).len() == 0);
                }
                break;
            },
        }
    }
    proof {
        assert(all.take(k) =~= all);
        lemma_segments_nonempty(all);
        assert(segments(all) == segments(all).drop_last().push(cur@));
        assert(segments(all).last() == cur@);
    }
    if cur.len() > 0 {
        let line = trimmed(&cur);
        out.push(line);
        proof {
            let seg = segments(all);
            assert forall|j: int| 0 <= j < out@.len() implies (#[trigger] out@[j])@ == trim(lines(all)[j]) by {
                if j < out@.len() - 1 {
                } else {
                    assert(seg[seg.len() - 1] == cur@);
                }
            }
        }
    } else {
        proof {
            let seg = segments(all);
            assert(lines(all) == seg.drop_last());
            assert forall|j: int| 0 <= j < out@.len() implies (#[trigger] out@[j])@ == trim(lines(all)[j]) by {
                assert(seg.drop_last()[j] == seg[j]);
            }
        }
    }
    out
}

} // verus!
