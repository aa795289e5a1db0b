use vstd::prelude::*;

verus! {

/// A token either starts with an alphanumeric character (Unicode sense) and
/// greedily extends over ASCII-alphanumeric characters, or is a single
/// non-alphanumeric character.
///
/// Whether a character may start a word token is decided by
/// `char::is_alphanumeric`; its result is named by `is_word_start` below.
pub open spec fn is_ascii_word_char(c: char) -> bool {
    (48 <= c as u32 && c as u32 <= 57) || (65 <= c as u32 && c as u32 <= 90) || (97 <= c as u32
        && c as u32 <= 122)
}

pub uninterp spec fn is_word_start(c: char) -> bool;

/// Relies on char::is_alphanumeric: whether a character is alphanumeric in
/// the Unicode sense depends on the character alone.
#[verifier::external_body]
fn char_is_word_start(c: char) -> (r: bool)
    ensures
        r == is_word_start(c),
{
    c.is_alphanumeric()
}

/// Length of the maximal run of ASCII-alphanumeric characters starting at `i`.
pub open spec fn word_run_len(s: Seq<char>, i: int) -> nat
    decreases s.len() - i,
{
    if 0 <= i < s.len() && is_ascii_word_char(s[i]) {
        1 + word_run_len(s, i + 1)
    } else {
        0
    }
}

pub proof fn lemma_word_run_len_bound(s: Seq<char>, i: int)
    requires
        0 <= i <= s.len(),
    ensures
        word_run_len(s, i) <= s.len() - i,
    decreases s.len() - i,
{
    if i < s.len() && is_ascii_word_char(s[i]) {
        lemma_word_run_len_bound(s, i + 1);
    }
}

/// Length of the token that starts at position `i`.
pub open spec fn token_len_at(s: Seq<char>, i: int) -> nat
    recommends
        0 <= i < s.len(),
{
    if is_word_start(s[i]) {
        1 + word_run_len(s, i + 1)
    } else {
        1
    }
}

/// The sequence of tokens of `s`, scanning from position `i`.
pub open spec fn spec_tokenize_from(s: Seq<char>, i: int) -> Seq<Seq<char>>
    decreases s.len() - i,
        via spec_tokenize_from_decreases
{
    if 0 <= i < s.len() {
        let n = token_len_at(s, i) as int;
        seq![s.subrange(i, i + n)] + spec_tokenize_from(s, i + n)
    } else {
        Seq::empty()
    }
}

#[via_fn]
proof fn spec_tokenize_from_decreases(s: Seq<char>, i: int) {
    if 0 <= i < s.len() {
        lemma_word_run_len_bound(s, i + 1);
    }
}

/// The sequence of tokens of `s`.
pub open spec fn spec_tokenize(s: Seq<char>) -> Seq<Seq<char>> {
    spec_tokenize_from(s, 0)
}

/// Concatenation of a sequence of tokens.
pub open spec fn concat_all(ts: Seq<Seq<char>>) -> Seq<char>
    decreases ts.len(),
{
    if ts.len() == 0 {
        Seq::empty()
    } else {
        ts[0] + concat_all(ts.skip(1))
    }
}

pub proof fn lemma_concat_all_take(ts: Seq<Seq<char>>, i: int)
    requires
        0 <= i < ts.len(),
    ensures
        concat_all(ts.take(i + 1)) == concat_all(ts.take(i)) + ts[i],
    decreases i,
{
    if i == 0 {
        assert(ts.take(1).skip(1) =~= Seq::<Seq<char>>::empty());
        assert(concat_all(ts.take(1).skip(1)) =~= Seq::<char>::empty());
        assert(ts.take(0) =~= Seq::<Seq<char>>::empty());
        assert(ts.take(1)[0] == ts[0]);
        assert(concat_all(ts.take(1)) =~= ts[0]);
        assert(concat_all(ts.take(0)) + ts[0] =~= ts[0]);
    } else {
        lemma_concat_all_take(ts.skip(1), i - 1);
        assert(ts.take(i + 1).skip(1) =~= ts.skip(1).take(i));
        assert(ts.take(i).skip(1) =~= ts.skip(1).take(i - 1));
        assert(concat_all(ts.take(i + 1)) == ts[0] + concat_all(ts.skip(1).take(i)));
        assert(concat_all(ts.take(i)) == ts[0] + concat_all(ts.skip(1).take(i - 1)));
        assert(ts.skip(1)[i - 1] == ts[i]);
        assert(ts[0] + (concat_all(ts.skip(1).take(i - 1)) + ts[i]) =~= (ts[0] + concat_all(
            ts.skip(1).take(i - 1),
        )) + ts[i]);
    }
}

pub proof fn lemma_token_len_at_bound(s: Seq<char>, i: int)
    requires
        0 <= i < s.len(),
    ensures
        1 <= token_len_at(s, i) <= s.len() - i,
{
    lemma_word_run_len_bound(s, i + 1);
}

proof fn lemma_tokenize_from_concat(s: Seq<char>, i: int)
    requires
        0 <= i <= s.len(),
    ensures
        concat_all(spec_tokenize_from(s, i)) == s.skip(i),
    decreases s.len() - i,
{
    if i < s.len() {
        lemma_token_len_at_bound(s, i);
        let n = token_len_at(s, i) as int;
        lemma_tokenize_from_concat(s, i + n);
        let ts = spec_tokenize_from(s, i);
        assert(ts.skip(1) =~= spec_tokenize_from(s, i + n));
        assert(s.subrange(i, i + n) + s.skip(i + n) =~= s.skip(i));
    } else {
        assert(s.skip(i) =~= Seq::<char>::empty());
    }
}

/// Concatenating the tokens of a string reproduces the string exactly: the
/// tokenizer drops no character and invents none.
pub proof fn lemma_tokenize_round_trip(s: Seq<char>)
    ensures
        concat_all(spec_tokenize(s)) == s,
{
    lemma_tokenize_from_concat(s, 0);
    assert(s.skip(0) =~= s);
}

fn is_ascii_word_char_exec(c: char) -> (r: bool)
    ensures
        r == is_ascii_word_char(c),
{
    let u = c as u32;
    (48 <= u && u <= 57) || (65 <= u && u <= 90) || (97 <= u && u <= 122)
}

/// Index just past the run of ASCII-alphanumeric characters starting at `from`.
fn scan_word_run(s: &str, from: usize, len: usize) -> (j: usize)
    requires
        from <= len,
        len == s@.len(),
    ensures
        from <= j <= len,
        j - from == word_run_len(s@, from as int),
{
    let mut j = from;
    loop
        invariant
            from <= j <= len,
            len == s@.len(),
            word_run_len(s@, from as int) == j - from + word_run_len(s@, j as int),
        ensures
            from <= j <= len,
            j - from == word_run_len(s@, from as int),
        decreases len - j,
    {
        if j < len {
            let c = s.get_char(j);
            if is_ascii_word_char_exec(c) {
                proof {
                    lemma_word_run_len_bound(s@, j + 1);
                }
                j = j + 1;
            } else {
                break ;
            }
        } else {
            break ;
        }
    }
    j
}

/// Splits `s` into tokens: a maximal alphanumeric run starting at an
/// alphanumeric character (extended only over ASCII-alphanumeric characters),
/// or a single character otherwise.
pub fn tokenize(s: &str) -> (r: Vec<String>)
    ensures
        r.deep_view() == spec_tokenize(s@),
{
    let len = s.unicode_len();
    let mut r: Vec<String> = Vec::new();
    let mut i: usize = 0;
    while i < len
        invariant
            i <= len,
            len == s@.len(),
            spec_tokenize(s@) == r.deep_view() + spec_tokenize_from(s@, i as int),
        decreases len - i,
    {
        let c = s.get_char(i);
        let j: usize = if char_is_word_start(c) {
            scan_word_run(s, i + 1, len)
        } else {
            i + 1
        };
        proof {
            lemma_token_len_at_bound(s@, i as int);
            assert(j - i == token_len_at(s@, i as int));
        }
        let tok = s.substring_char(i, j);
        let ghost old_dv = r.deep_view();
        r.push(tok.to_owned());
        proof {
            assert(r.deep_view() =~= old_dv.push(s@.subrange(i as int, j as int)));
            assert(spec_tokenize_from(s@, i as int) == seq![s@.subrange(i as int, j as int)]
                + spec_tokenize_from(s@, j as int));
            assert(r.deep_view() + spec_tokenize_from(s@, j as int) =~= old_dv
                + spec_tokenize_from(s@, i as int));
        }
        i = j;
    }
    proof {
        assert(spec_tokenize_from(s@, i as int) =~= Seq::<Seq<char>>::empty());
        assert(r.deep_view() + spec_tokenize_from(s@, i as int) =~= r.deep_view());
    }
    r
}

} // verus!
