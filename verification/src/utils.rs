//! Small string helpers shared by the path templater and the page emitter.

use vstd::prelude::*;

verus! {

/// Relies on alloc::string::String::push: appends the given character to the
/// end of the string.
#[verifier::external_body]
pub(crate) fn push_char(s: &mut String, c: char)
    ensures
        final(s)@ == old(s)@.push(c),
{
    s.push(c);
}

/// Whether two string slices hold the same characters.
pub fn str_eq(a: &str, b: &str) -> (r: bool)
    ensures
        r == (a@ == b@),
{
    let alen = a.unicode_len();
    let blen = b.unicode_len();
    if alen != blen {
        return false;
    }
    let mut i: usize = 0;
    while i < alen
        invariant
            i <= alen,
            alen == a@.len(),
            alen == b@.len(),
            forall|j: int| 0 <= j < i ==> a@[j] == b@[j],
        decreases alen - i,
    {
        if a.get_char(i) != b.get_char(i) {
            return false;
        }
        i += 1;
    }
    proof {
        assert(a@ =~= b@);
    }
    true
}

/// Strict lexicographic order on character sequences: the empty sequence
/// comes first, and otherwise the first differing character decides.
pub open spec fn lex_lt(a: Seq<char>, b: Seq<char>) -> bool
    decreases a.len(),
{
    if b.len() == 0 {
        false
    } else if a.len() == 0 {
        true
    } else if a[0] != b[0] {
        a[0] < b[0]
    } else {
        lex_lt(a.drop_first(), b.drop_first())
    }
}

/// No character sequence comes strictly before itself.
pub proof fn lemma_lex_lt_irrefl(a: Seq<char>)
    ensures
        !lex_lt(a, a),
    decreases a.len(),
{
    if a.len() > 0 {
        lemma_lex_lt_irrefl(a.drop_first());
    }
}

/// Lexicographic order is transitive.
pub proof fn lemma_lex_lt_trans(a: Seq<char>, b: Seq<char>, c: Seq<char>)
    requires
        lex_lt(a, b),
        lex_lt(b, c),
    ensures
        lex_lt(a, c),
    decreases a.len(),
{
    if a.len() > 0 && c.len() > 0 && a[0] == c[0] {
        lemma_lex_lt_trans(a.drop_first(), b.drop_first(), c.drop_first());
    }
}

/// Two different character sequences are lexicographically ordered one way
/// or the other.
pub proof fn lemma_lex_lt_connected(a: Seq<char>, b: Seq<char>)
    ensures
        lex_lt(a, b) || lex_lt(b, a) || a == b,
    decreases a.len(),
{
    if a.len() == 0 && b.len() == 0 {
        assert(a =~= b);
    } else if a.len() > 0 && b.len() > 0 && a[0] == b[0] {
        lemma_lex_lt_connected(a.drop_first(), b.drop_first());
        if a.drop_first() == b.drop_first() {
            assert(a =~= b) by {
                assert(a.drop_first().len() == a.len() - 1);
                assert(b.drop_first().len() == b.len() - 1);
                assert(a.len() == b.len());
                assert(forall|i: int| 1 <= i < a.len() ==> #[trigger] a[i] == a.drop_first()[i - 1]);
                assert(forall|i: int| 1 <= i < b.len() ==> #[trigger] b[i] == b.drop_first()[i - 1]);
            }
        }
    }
}

/// Whether `a` comes strictly before `b` in lexicographic character order.
pub fn str_lex_lt(a: &str, b: &str) -> (r: bool)
    ensures
        r == lex_lt(a@, b@),
{
    let alen = a.unicode_len();
    let blen = b.unicode_len();
    let mut i: usize = 0;
    proof {
        assert(a@.skip(0) =~= a@);
        assert(b@.skip(0) =~= b@);
    }
    loop
        invariant
            i <= alen,
            i <= blen,
            alen == a@.len(),
            blen == b@.len(),
            lex_lt(a@, b@) == lex_lt(a@.skip(i as int), b@.skip(i as int)),
        decreases alen - i,
    {
        proof {
            assert(a@.skip(i as int).len() == alen - i);
            assert(b@.skip(i as int).len() == blen - i);
        }
        if i >= blen {
            return false;
        }
        if i >= alen {
            return true;
        }
        let ca = a.get_char(i);
        let cb = b.get_char(i);
        proof {
            assert(a@.skip(i as int)[0] == a@[i as int]);
            assert(b@.skip(i as int)[0] == b@[i as int]);
        }
        if ca != cb {
            return ca < cb;
        }
        proof {
            assert(a@.skip(i as int).drop_first() =~= a@.skip(i as int + 1));
            assert(b@.skip(i as int).drop_first() =~= b@.skip(i as int + 1));
        }
        i += 1;
    }
}

/// The character for one decimal digit.
pub open spec fn dec_digit(d: nat) -> char {
    ((d + 48) as u8) as char
}

/// The canonical decimal text of a number: no sign, no leading zero except
/// for zero itself.
pub open spec fn dec_rep(n: nat) -> Seq<char>
    decreases n,
{
    if n < 10 {
        seq![dec_digit(n)]
    } else {
        dec_rep(n / 10).push(dec_digit(n % 10))
    }
}

/// Appends the canonical decimal text of `n` to `s`.
pub fn push_num(s: &mut String, n: usize)
    ensures
        final(s)@ == old(s)@ + dec_rep(n as nat),
    decreases n,
{
    if n < 10 {
        let d: u8 = 48u8 + n as u8;
        push_char(s, d as char);
        proof {
            assert(d as char == dec_digit(n as nat));
            assert(old(s)@.push(dec_digit(n as nat)) =~= old(s)@ + dec_rep(n as nat));
        }
    } else {
        push_num(s, n / 10);
        let d: u8 = 48u8 + (n % 10) as u8;
        push_char(s, d as char);
        proof {
            assert(d as char == dec_digit(n as nat % 10));
            assert((old(s)@ + dec_rep(n as nat / 10)).push(dec_digit(n as nat % 10)) =~= old(
                s,
            )@ + dec_rep(n as nat));
        }
    }
}

/// Whether `sep` occurs at offset `i` of `s`.
pub open spec fn match_at(s: Seq<char>, sep: Seq<char>, i: int) -> bool {
    0 <= i && i + sep.len() <= s.len() && s.subrange(i, i + sep.len()) == sep
}

/// The start of the last occurrence of `sep` found by a left-to-right scan
/// of `s` that consumes each occurrence it finds, or `None` when the scan
/// finds none. `sep` is assumed non-empty by the first branch.
pub open spec fn cut_from(s: Seq<char>, sep: Seq<char>) -> Option<int>
    decreases s.len(),
{
    if sep.len() == 0 || s.len() < sep.len() {
        None
    } else if s.subrange(0, sep.len() as int) == sep {
        match cut_from(s.skip(sep.len() as int), sep) {
            None => Some(0),
            Some(k) => Some(sep.len() + k),
        }
    } else {
        match cut_from(s.drop_first(), sep) {
            None => None,
            Some(k) => Some(1 + k),
        }
    }
}

/// What `str_before_char` returns: everything before the last occurrence of
/// `sep` in the left-to-right consuming scan; the empty sequence when `sep`
/// does not occur; `s` itself when `sep` is empty.
pub open spec fn spec_before_last(s: Seq<char>, sep: Seq<char>) -> Seq<char> {
    if sep.len() == 0 {
        s
    } else {
        match cut_from(s, sep) {
            None => Seq::empty(),
            Some(k) => s.subrange(0, k),
        }
    }
}

/// Whether `sep` occurs at character offset `i` of `input`.
fn match_at_exec(input: &str, sep: &str, i: usize) -> (r: bool)
    requires
        i + sep@.len() <= input@.len(),
        input@.len() <= usize::MAX,
    ensures
        r == (input@.subrange(i as int, i + sep@.len()) == sep@),
{
    let m = sep.unicode_len();
    let mut j: usize = 0;
    while j < m
        invariant
            j <= m,
            m == sep@.len(),
            i + m <= input@.len(),
            input@.len() <= usize::MAX,
            forall|j2: int| 0 <= j2 < j ==> input@[i + j2] == sep@[j2],
        decreases m - j,
    {
        if input.get_char(i + j) != sep.get_char(j) {
            proof {
                assert(input@.subrange(i as int, i + sep@.len())[j as int] == input@[i + j]);
            }
            return false;
        }
        j += 1;
    }
    proof {
        assert(input@.subrange(i as int, i + sep@.len()) =~= sep@);
    }
    true
}

/// Everything of `input` before the last occurrence of `sep`: the pieces that
/// `sep` splits `input` into, all but the last, joined with `sep` again. The
/// empty string when `sep` does not occur in `input`.
pub fn str_before_char(input: &str, sep: &str) -> (r: String)
    ensures
        r@ == spec_before_last(input@, sep@),
{
    let n = input.unicode_len();
    let m = sep.unicode_len();
    if m == 0 {
        return input.to_owned();
    }
    let mut i: usize = 0;
    let mut cut: usize = 0;
    let mut found = false;
    proof {
        assert(input@.skip(0) =~= input@);
    }
    if m <= n {
        while i <= n - m
            invariant
                m == sep@.len(),
                n == input@.len(),
                1 <= m <= n,
                i <= n,
                cut <= i,
                cut_from(input@, sep@) == (match cut_from(input@.skip(i as int), sep@) {
                    Some(k) => Some(i + k),
                    None => if found {
                        Some(cut as int)
                    } else {
                        None::<int>
                    },
                }),
            decreases n - i,
        {
            proof {
                assert(input@.skip(i as int).len() == n - i);
            }
            if match_at_exec(input, sep, i) {
                proof {
                    assert(input@.skip(i as int).subrange(0, m as int) =~= input@.subrange(
                        i as int,
                        i + m,
                    ));
                    assert(input@.skip(i as int).skip(m as int) =~= input@.skip(i as int + m));
                }
                found = true;
                cut = i;
                i = i + m;
            } else {
                proof {
                    assert(input@.skip(i as int).subrange(0, m as int) =~= input@.subrange(
                        i as int,
                        i + m,
                    ));
                    assert(input@.skip(i as int).drop_first() =~= input@.skip(i as int + 1));
                }
                i = i + 1;
            }
        }
    }
    proof {
        assert(input@.skip(i as int).len() < m);
        assert(cut_from(input@.skip(i as int), sep@) is None);
    }
    if found {
        let pre = input.substring_char(0, cut);
        pre.to_owned()
    } else {
        String::new()
    }
}

} // verus!
