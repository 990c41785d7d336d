//! The path templater: expands `{field}` placeholders in a page's output
//! path from the fields of one record. String fields substitute verbatim,
//! numeric fields substitute their canonical decimal text, and a placeholder
//! naming a missing, boolean or null field stays in the path unchanged.

use crate::record::{Record, RecordView, Value, ValueView};
use crate::utils::{dec_rep, push_char, push_num};
use vstd::prelude::*;

verus! {

/// The characters a placeholder identifier may hold: ASCII letters, digits
/// and the underscore.
pub open spec fn is_word_char(c: char) -> bool {
    ('a' <= c && c <= 'z') || ('A' <= c && c <= 'Z') || ('0' <= c && c <= '9') || c == '_'
}

/// Whether `c` may stand in a placeholder identifier.
fn is_word_char_exec(c: char) -> (r: bool)
    ensures
        r == is_word_char(c),
{
    ('a' <= c && c <= 'z') || ('A' <= c && c <= 'Z') || ('0' <= c && c <= '9') || c == '_'
}

/// The length of the longest word-character prefix of `p`.
pub open spec fn word_run(p: Seq<char>) -> nat
    decreases p.len(),
{
    if p.len() == 0 || !is_word_char(p[0]) {
        0
    } else {
        1 + word_run(p.drop_first())
    }
}

/// The longest word-character prefix is no longer than the sequence.
pub proof fn lemma_word_run_le(p: Seq<char>)
    ensures
        word_run(p) <= p.len(),
    decreases p.len(),
{
    if p.len() > 0 && is_word_char(p[0]) {
        lemma_word_run_le(p.drop_first());
    }
}

/// Whether `p` begins with a whole placeholder: an opening brace, at least
/// one word character, and a closing brace.
pub open spec fn has_head_token(p: Seq<char>) -> bool {
    &&& p.len() >= 1
    &&& p[0] == '{'
    &&& {
        let k = word_run(p.skip(1)) as int;
        &&& k >= 1
        &&& 1 + k < p.len()
        &&& p[1 + k] == '}'
    }
}

/// The identifier of the placeholder `p` begins with.
pub open spec fn head_key(p: Seq<char>) -> Seq<char> {
    p.subrange(1, 1 + word_run(p.skip(1)) as int)
}

/// The path with every placeholder replaced left to right: a placeholder
/// naming a string field becomes that string, one naming a numeric field its
/// decimal text, and any other placeholder stays as written. Substituted
/// text is inserted verbatim and not scanned again.
pub open spec fn spec_subst(p: Seq<char>, r: RecordView) -> Seq<char>
    decreases p.len(),
{
    if p.len() == 0 {
        p
    } else if has_head_token(p) {
        let k = word_run(p.skip(1)) as int;
        let rest = p.skip(2 + k);
        match r.get(head_key(p)) {
            Some(ValueView::Str(s)) => s + spec_subst(rest, r),
            Some(ValueView::Num(n)) => dec_rep(n) + spec_subst(rest, r),
            _ => p.subrange(0, 2 + k) + spec_subst(rest, r),
        }
    } else {
        seq![p[0]] + spec_subst(p.drop_first(), r)
    }
}

/// Expands the `{field}` placeholders of `path` from the fields of
/// `record`.
pub fn parse_page_path(path: &str, record: &Record) -> (r: String)
    ensures
        r@ == spec_subst(path@, record@),
{
    let n = path.unicode_len();
    let mut out = String::new();
    let mut i: usize = 0;
    proof {
        assert(path@.skip(0) =~= path@);
    }
    while i < n
        invariant
            i <= n,
            n == path@.len(),
            spec_subst(path@, record@) == out@ + spec_subst(path@.skip(i as int), record@),
        decreases n - i,
    {
        let ghost rem = path@.skip(i as int);
        proof {
            assert(rem.len() == n - i);
            assert(rem[0] == path@[i as int]);
        }
        let c = path.get_char(i);
        let mut done = false;
        if c == '{' {
            let mut j = i + 1;
            proof {
                assert(path@.skip(i as int + 1).len() == n - i - 1);
            }
            while j < n && is_word_char_exec(path.get_char(j))
                invariant
                    i + 1 <= j <= n,
                    n == path@.len(),
                    word_run(path@.skip(i as int + 1)) == (j - i - 1) + word_run(
                        path@.skip(j as int),
                    ),
                decreases n - j,
            {
                proof {
                    assert(path@.skip(j as int)[0] == path@[j as int]);
                    assert(path@.skip(j as int).drop_first() =~= path@.skip(j as int + 1));
                }
                j += 1;
            }
            proof {
                if j < n {
                    assert(path@.skip(j as int)[0] == path@[j as int]);
                }
                assert(word_run(path@.skip(j as int)) == 0);
                assert(rem.skip(1) =~= path@.skip(i as int + 1));
            }
            let ghost k = (j - i - 1) as int;
            if j > i + 1 && j < n && path.get_char(j) == '}' {
                proof {
                    assert(rem[1 + k] == path@[j as int]);
                    assert(has_head_token(rem));
                    assert(head_key(rem) =~= path@.subrange(i as int + 1, j as int));
                    assert(rem.skip(2 + k) =~= path@.skip(j as int + 1));
                }
                let key_str = path.substring_char(i + 1, j);
                let ghost out0 = out@;
                match record.get(key_str) {
                    Some(Value::Str(s)) => {
                        out.append(s.as_str());
                    },
                    Some(Value::Num(num)) => {
                        let held: usize = *num;
                        push_num(&mut out, held);
                    },
                    _ => {
                        let token = path.substring_char(i, j + 1);
                        proof {
                            assert(token@ =~= rem.subrange(0, 2 + k));
                        }
                        out.append(token);
                    },
                }
                proof {
                    assert((out0 + spec_subst(rem, record@)) =~= out@ + spec_subst(
                        path@.skip(j as int + 1),
                        record@,
                    ));
                }
                i = j + 1;
                done = true;
            }
        }
        if !done {
            proof {
                assert(!has_head_token(rem));
                assert(rem.drop_first() =~= path@.skip(i as int + 1));
                assert((out@ + spec_subst(rem, record@)) =~= out@.push(c) + spec_subst(
                    path@.skip(i as int + 1),
                    record@,
                ));
            }
            push_char(&mut out, c);
            i += 1;
        }
    }
    proof {
        assert(path@.skip(n as int) =~= Seq::<char>::empty());
        assert(out@ + spec_subst(path@.skip(n as int), record@) =~= out@);
    }
    out
}

/// Whether any position of `p` begins a whole placeholder.
pub open spec fn has_token(p: Seq<char>) -> bool
    decreases p.len(),
{
    if p.len() == 0 {
        false
    } else if has_head_token(p) {
        true
    } else {
        has_token(p.drop_first())
    }
}

/// Whether `s` holds no opening brace, so that no placeholder can start in
/// it.
pub open spec fn brace_free(s: Seq<char>) -> bool {
    forall|i: int| 0 <= i < s.len() ==> s[i] != '{'
}

/// Whether every string field of the record is free of opening braces, so
/// that substituted text cannot itself look like a placeholder.
pub open spec fn values_brace_free(r: RecordView) -> bool {
    forall|i: int|
        0 <= i < r.fields.len() ==> ((#[trigger] r.fields[i]).1 matches ValueView::Str(s)
            ==> brace_free(s))
}

/// Whether every opening brace of `p` begins a whole placeholder: no stray
/// `{` stands in the path.
pub open spec fn tokens_complete(p: Seq<char>) -> bool {
    forall|q: int| 0 <= q < p.len() && #[trigger] p[q] == '{' ==> has_head_token(p.skip(q))
}

/// Whether `p` begins with a placeholder naming a present string or numeric
/// field of `r`: one that substitution would replace.
pub open spec fn head_token_present(p: Seq<char>, r: RecordView) -> bool {
    has_head_token(p) && (r.get(head_key(p)) matches Some(v) && (v is Str || v is Num))
}

/// Whether any position of `p` begins a placeholder naming a present string
/// or numeric field of `r`.
pub open spec fn has_present_token(p: Seq<char>, r: RecordView) -> bool
    decreases p.len(),
{
    if p.len() == 0 {
        false
    } else if head_token_present(p, r) {
        true
    } else {
        has_present_token(p.drop_first(), r)
    }
}

/// Text without opening braces starts no placeholder: prepending it changes
/// nothing about the placeholders that remain.
proof fn lemma_brace_free_prefix(u: Seq<char>, w: Seq<char>, r: RecordView)
    requires
        brace_free(u),
    ensures
        has_present_token(u + w, r) == has_present_token(w, r),
    decreases u.len(),
{
    if u.len() == 0 {
        assert(u + w =~= w);
    } else {
        let c = u + w;
        assert(c[0] == u[0]);
        assert(!has_head_token(c));
        assert(c.drop_first() =~= u.drop_first() + w);
        assert(brace_free(u.drop_first())) by {
            assert(forall|i: int|
                0 <= i < u.drop_first().len() ==> u.drop_first()[i] == u[i + 1]);
        }
        lemma_brace_free_prefix(u.drop_first(), w, r);
    }
}

/// The decimal text of a number holds digits only, never an opening brace.
proof fn lemma_dec_rep_brace_free(n: nat)
    ensures
        brace_free(dec_rep(n)),
    decreases n,
{
    if n < 10 {
        assert(dec_rep(n) =~= seq![crate::utils::dec_digit(n)]);
    } else {
        lemma_dec_rep_brace_free(n / 10);
        assert(forall|i: int|
            0 <= i < dec_rep(n / 10).len() ==> dec_rep(n)[i] == dec_rep(n / 10)[i]);
        assert(dec_rep(n).last() == crate::utils::dec_digit(n % 10));
    }
}

/// Every character inside the longest word-character prefix is a word
/// character.
proof fn lemma_word_run_chars(s: Seq<char>)
    ensures
        forall|j: int| 0 <= j < word_run(s) ==> is_word_char(#[trigger] s[j]),
    decreases s.len(),
{
    lemma_word_run_le(s);
    if s.len() > 0 && is_word_char(s[0]) {
        lemma_word_run_chars(s.drop_first());
        assert(forall|j: int|
            1 <= j < word_run(s) ==> s[j] == s.drop_first()[j - 1] && is_word_char(
                #[trigger] s[j],
            ));
    }
}

/// A run of word characters followed by anything that starts with a
/// non-word character has exactly that run as its longest word prefix.
proof fn lemma_word_run_concat(u: Seq<char>, w: Seq<char>)
    requires
        forall|j: int| 0 <= j < u.len() ==> is_word_char(#[trigger] u[j]),
        w.len() > 0,
        !is_word_char(w[0]),
    ensures
        word_run(u + w) == u.len(),
    decreases u.len(),
{
    let c = u + w;
    if u.len() == 0 {
        assert(c =~= w);
    } else {
        assert(c[0] == u[0]);
        assert(c.drop_first() =~= u.drop_first() + w);
        assert(forall|j: int|
            0 <= j < u.drop_first().len() ==> u.drop_first()[j] == u[j + 1] && is_word_char(
                #[trigger] u.drop_first()[j],
            ));
        lemma_word_run_concat(u.drop_first(), w);
    }
}

/// After substitution over a path whose braces all begin whole placeholders,
/// against a record whose string fields hold no opening brace, no
/// placeholder naming a present string or numeric field remains: every such
/// placeholder was replaced.
pub proof fn lemma_subst_no_present_token(p: Seq<char>, r: RecordView)
    requires
        tokens_complete(p),
        values_brace_free(r),
    ensures
        !has_present_token(spec_subst(p, r), r),
    decreases p.len(),
{
    if p.len() == 0 {
    } else if has_head_token(p) {
        let k = word_run(p.skip(1)) as int;
        let key = head_key(p);
        let rest = p.skip(2 + k);
        lemma_word_run_le(p.skip(1));
        assert(tokens_complete(rest)) by {
            assert forall|q: int| 0 <= q < rest.len() && #[trigger] rest[q] == '{' implies
                has_head_token(rest.skip(q)) by {
                assert(p[q + 2 + k] == rest[q]);
                assert(p.skip(q + 2 + k) =~= rest.skip(q));
            }
        }
        lemma_subst_no_present_token(rest, r);
        match r.get(key) {
            Some(ValueView::Str(s)) => {
                crate::record::lemma_field_lookup_in(r.fields, key);
                assert(brace_free(s));
                lemma_brace_free_prefix(s, spec_subst(rest, r), r);
            },
            Some(ValueView::Num(n)) => {
                lemma_dec_rep_brace_free(n);
                lemma_brace_free_prefix(dec_rep(n), spec_subst(rest, r), r);
            },
            _ => {
                // the placeholder stays as written; it names no present
                // string or numeric field, so it is no present token, and
                // nothing behind its opening brace can start one
                let t = p.subrange(0, 2 + k);
                let w = spec_subst(rest, r);
                let c = t + w;
                lemma_word_run_chars(p.skip(1));
                assert(forall|j: int|
                    0 <= j < key.len() ==> key[j] == p.skip(1)[j] && is_word_char(
                        #[trigger] key[j],
                    ));
                assert(c[0] == '{');
                assert(c.skip(1) =~= key + (seq!['}'] + w));
                lemma_word_run_concat(key, seq!['}'] + w);
                assert(word_run(c.skip(1)) == k);
                assert(c[1 + k] == '}');
                assert(has_head_token(c));
                assert(head_key(c) =~= key);
                assert(!head_token_present(c, r));
                assert(has_present_token(c, r) == has_present_token(c.drop_first(), r));
                assert(c.drop_first() =~= (key + seq!['}']) + w);
                assert(brace_free(key + seq!['}'])) by {
                    assert(!is_word_char('{'));
                    assert(forall|j: int|
                        0 <= j < key.len() ==> (key + seq!['}'])[j] == key[j]);
                    assert((key + seq!['}']).last() == '}');
                }
                lemma_brace_free_prefix(key + seq!['}'], w, r);
            },
        }
    } else {
        assert(p[0] != '{') by {
            if p[0] == '{' {
                assert(p.skip(0) =~= p);
            }
        }
        assert(tokens_complete(p.drop_first())) by {
            assert forall|q: int|
                0 <= q < p.drop_first().len() && #[trigger] p.drop_first()[q] == '{' implies
                has_head_token(p.drop_first().skip(q)) by {
                assert(p[q + 1] == p.drop_first()[q]);
                assert(p.skip(q + 1) =~= p.drop_first().skip(q));
            }
        }
        lemma_subst_no_present_token(p.drop_first(), r);
        assert(brace_free(seq![p[0]]));
        lemma_brace_free_prefix(seq![p[0]], spec_subst(p.drop_first(), r), r);
    }
}

/// Substitution is the identity on a path without placeholders: the output
/// equals the input.
pub proof fn lemma_subst_no_tokens(p: Seq<char>, r: RecordView)
    requires
        !has_token(p),
    ensures
        spec_subst(p, r) == p,
    decreases p.len(),
{
    if p.len() > 0 {
        lemma_subst_no_tokens(p.drop_first(), r);
        assert(seq![p[0]] + p.drop_first() =~= p);
    }
}

} // verus!
