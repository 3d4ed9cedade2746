use vstd::prelude::*;

use crate::text::{
    chars_of, contains_char, drop_empty, nonempty_segments, split_chars, string_from_chars, Sep,
};

verus! {

/// The largest row index a coordinate token may carry: the 32-bit signed
/// range; larger values are rejected, not wrapped.
pub const MAX_ROW: u64 = 2147483647;

/// Model of one decoded cell edit.
pub struct EditModel {
    pub col: char,
    pub row: int,
    pub val: Seq<char>,
}

/// One decoded cell edit: a column letter, a row index and the verbatim
/// value token.
#[derive(Clone, Debug)]
pub struct CellEdit {
    pub column: char,
    pub row: i32,
    pub value: String,
}

impl View for CellEdit {
    type V = EditModel;

    open spec fn view(&self) -> EditModel {
        EditModel { col: self.column, row: self.row as int, val: self.value@ }
    }
}

/// Model of a decoding failure.
pub enum ErrModel {
    MissingDelimiter,
    MalformedFragment(Seq<char>),
    InvalidRow(Seq<char>),
}

/// Why a payload failed to decode. The two fragment-level variants carry the
/// offending fragment for diagnostics.
#[derive(Clone, PartialEq, Debug)]
pub enum DecodeError {
    /// The payload contains no `$` marker at all.
    MissingDelimiter,
    /// A fragment does not split into exactly two whitespace-separated tokens.
    MalformedFragment(String),
    /// The row part of a coordinate token is empty, not all digits, or above
    /// the 32-bit signed range.
    InvalidRow(String),
}

impl View for DecodeError {
    type V = ErrModel;

    open spec fn view(&self) -> ErrModel {
        match self {
            DecodeError::MissingDelimiter => ErrModel::MissingDelimiter,
            DecodeError::MalformedFragment(s) => ErrModel::MalformedFragment(s@),
            DecodeError::InvalidRow(s) => ErrModel::InvalidRow(s@),
        }
    }
}

/// The non-empty fragments of a payload, split on the `$` marker.
pub open spec fn frags_of(s: Seq<char>) -> Seq<Seq<char>> {
    nonempty_segments(s, Sep::Marker)
}

/// The non-empty whitespace-separated tokens of one fragment.
pub open spec fn tokens_of(f: Seq<char>) -> Seq<Seq<char>> {
    nonempty_segments(f, Sep::Blank)
}

pub open spec fn is_digit(c: char) -> bool {
    '0' <= c && c <= '9'
}

pub open spec fn all_digits(t: Seq<char>) -> bool {
    forall|i: int| 0 <= i < t.len() ==> is_digit(#[trigger] t[i])
}

/// The number a digit string denotes, most significant digit first.
pub open spec fn digits_val(t: Seq<char>) -> int
    decreases t.len(),
{
    if t.len() == 0 {
        0
    } else {
        digits_val(t.drop_last()) * 10 + (t.last() as int - 48)
    }
}

/// The row part of a fragment's coordinate token: everything after the
/// column letter.
pub open spec fn row_part(f: Seq<char>) -> Seq<char> {
    tokens_of(f)[0].drop_first()
}

/// A fragment has exactly two tokens.
pub open spec fn frag_shape_ok(f: Seq<char>) -> bool {
    tokens_of(f).len() == 2
}

/// A row token is non-empty, all digits, and within the 32-bit signed range.
pub open spec fn row_token_ok(t: Seq<char>) -> bool {
    t.len() > 0 && all_digits(t) && digits_val(t) <= MAX_ROW as int
}

/// The edit a well-formed fragment denotes.
pub open spec fn frag_edit(f: Seq<char>) -> EditModel {
    EditModel {
        col: tokens_of(f)[0][0],
        row: digits_val(row_part(f)),
        val: tokens_of(f)[1],
    }
}

/// Parses a list of fragments left to right; the first ill-formed fragment
/// decides the error.
pub open spec fn parse_frags(fs: Seq<Seq<char>>) -> Result<Seq<EditModel>, ErrModel>
    decreases fs.len(),
{
    if fs.len() == 0 {
        Ok(Seq::empty())
    } else if !frag_shape_ok(fs[0]) {
        Err(ErrModel::MalformedFragment(fs[0]))
    } else if !row_token_ok(row_part(fs[0])) {
        Err(ErrModel::InvalidRow(fs[0]))
    } else {
        match parse_frags(fs.drop_first()) {
            Ok(rest) => Ok(seq![frag_edit(fs[0])] + rest),
            Err(e) => Err(e),
        }
    }
}

/// What decoding a payload yields: the list of edits in payload order, or
/// the first error.
pub open spec fn spec_decode(s: Seq<char>) -> Result<Seq<EditModel>, ErrModel> {
    if !s.contains('$') {
        Err(ErrModel::MissingDelimiter)
    } else {
        parse_frags(frags_of(s))
    }
}

proof fn lemma_digits_val_nonneg(t: Seq<char>)
    requires
        all_digits(t),
    ensures
        digits_val(t) >= 0,
    decreases t.len(),
{
    if t.len() > 0 {
        assert(all_digits(t.drop_last()));
        lemma_digits_val_nonneg(t.drop_last());
    }
}

/// A digit string is worth at least any of its prefixes: appending digits
/// never shrinks the value.
proof fn lemma_digits_val_prefix(t: Seq<char>, k: int)
    requires
        all_digits(t),
        0 <= k <= t.len(),
    ensures
        digits_val(t) >= digits_val(t.take(k)),
    decreases t.len() - k,
{
    if k < t.len() {
        lemma_digits_val_prefix(t, k + 1);
        assert(t.take(k + 1).drop_last() == t.take(k));
        assert(all_digits(t.take(k)));
        lemma_digits_val_nonneg(t.take(k));
        assert(digits_val(t.take(k + 1)) >= digits_val(t.take(k)));
    } else {
        assert(t.take(k) == t);
    }
}

/// Parses one fragment: two tokens, a column letter, a digit row, a verbatim
/// value.
fn parse_fragment(frag: &Vec<char>) -> (r: Result<CellEdit, DecodeError>)
    ensures
        match r {
            Ok(e) => frag_shape_ok(frag@) && row_token_ok(row_part(frag@)) && e@ == frag_edit(
                frag@,
            ),
            Err(de) => match de@ {
                ErrModel::MalformedFragment(s) => !frag_shape_ok(frag@) && s == frag@,
                ErrModel::InvalidRow(s) => frag_shape_ok(frag@) && !row_token_ok(row_part(frag@))
                    && s == frag@,
                ErrModel::MissingDelimiter => false,
            },
        },
{
    let raw = split_chars(frag, Sep::Blank);
    let toks = drop_empty(raw);
    proof {
        assert(toks.deep_view() == tokens_of(frag@));
    }
    if toks.len() != 2 {
        return Err(DecodeError::MalformedFragment(string_from_chars(frag)));
    }
    let coord = &toks[0];
    proof {
        crate::text::segments(frag@, Sep::Blank).lemma_filter_pred(
            (|f: Seq<char>| f.len() > 0),
            0,
        );
        assert(coord@.len() > 0);
    }
    let col: char = coord[0];
    let n = coord.len();
    let ghost rp = row_part(frag@);
    proof {
        assert(rp == coord@.drop_first());
    }
    if n == 1 {
        proof {
            assert(rp.len() == 0);
        }
        return Err(DecodeError::InvalidRow(string_from_chars(frag)));
    }
    let mut val: u64 = 0;
    let mut ok = true;
    for j in 1..n
        invariant
            1 <= j <= n,
            n == coord@.len(),
            rp == coord@.drop_first(),
            rp.len() == n - 1,
            ok ==> all_digits(rp.take(j - 1)) && digits_val(rp.take(j - 1)) == val as int && val
                <= MAX_ROW,
            !ok ==> !row_token_ok(rp),
    {
        if ok {
            let c = coord[j];
            proof {
                assert(rp[j - 1] == coord@[j as int]);
                assert(rp.take(j as int).drop_last() == rp.take(j - 1));
                assert(rp.take(j as int).last() == rp[j - 1]);
            }
            if c < '0' || c > '9' {
                ok = false;
                proof {
                    assert(!is_digit(rp[j - 1]));
                    assert(!all_digits(rp));
                }
            } else {
                let d = (c as u32 - 48) as u64;
                proof {
                    assert(d as int == c as int - 48);
                }
                val = val * 10 + d;
                proof {
                    assert(is_digit(rp[j - 1]));
                    assert forall|k: int| 0 <= k < j implies is_digit(
                        #[trigger] rp.take(j as int)[k],
                    ) by {
                        if k < j - 1 {
                            assert(rp.take(j - 1)[k] == rp[k]);
                        }
                    }
                    assert(all_digits(rp.take(j as int)));
                    assert(digits_val(rp.take(j as int)) == val as int);
                }
                if val > MAX_ROW {
                    ok = false;
                    proof {
                        if all_digits(rp) {
                            lemma_digits_val_prefix(rp, j as int);
                            assert(digits_val(rp) > MAX_ROW as int);
                        }
                        assert(!row_token_ok(rp));
                    }
                }
            }
        }
    }
    if !ok {
        return Err(DecodeError::InvalidRow(string_from_chars(frag)));
    }
    proof {
        assert(rp.take(n - 1) == rp);
        assert(row_token_ok(rp));
    }
    let row: i32 = val as i32;
    let value = string_from_chars(&toks[1]);
    proof {
        assert(coord@ == tokens_of(frag@)[0]);
        assert(col == tokens_of(frag@)[0][0]);
        assert(row as int == digits_val(row_part(frag@)));
        assert(toks@[1]@ == tokens_of(frag@)[1]);
        assert(value@ == tokens_of(frag@)[1]);
    }
    Ok(CellEdit { column: col, row, value })
}

/// Decodes a batch-edit payload into its cell edits, in payload order.
///
/// The result is exactly what the grammar says: `MissingDelimiter` when no
/// `$` occurs, otherwise the fragments between markers are parsed left to
/// right and the first ill-formed one decides the error.
pub fn decode(payload: &str) -> (r: Result<Vec<CellEdit>, DecodeError>)
    ensures
        match r {
            Ok(v) => spec_decode(payload@) == Ok::<Seq<EditModel>, ErrModel>(
                v@.map_values(|e: CellEdit| e@),
            ),
            Err(e) => spec_decode(payload@) == Err::<Seq<EditModel>, ErrModel>(e@),
        },
{
    let cs = chars_of(payload);
    if !contains_char(&cs, '$') {
        return Err(DecodeError::MissingDelimiter);
    }
    let raw = split_chars(&cs, Sep::Marker);
    let frags = drop_empty(raw);
    let ghost fs = frags.deep_view();
    proof {
        assert(fs == frags_of(payload@));
    }
    let mut out: Vec<CellEdit> = Vec::new();
    proof {
        assert(fs.skip(0) == fs);
    }
    for i in 0..frags.len()
        invariant
            fs == frags.deep_view(),
            fs == frags_of(payload@),
            payload@.contains('$'),
            out@.len() <= i,
            match parse_frags(fs.skip(i as int)) {
                Ok(m) => parse_frags(fs) == Ok::<Seq<EditModel>, ErrModel>(
                    out@.map_values(|e: CellEdit| e@) + m,
                ),
                Err(e) => parse_frags(fs) == Err::<Seq<EditModel>, ErrModel>(e),
            },
    {
        proof {
            assert(fs.skip(i as int).len() == fs.len() - i);
            assert(fs.skip(i as int)[0] == fs[i as int]);
            assert(fs.skip(i as int).drop_first() =~~= fs.skip(i + 1));
            assert(frags@[i as int]@ == fs[i as int]);
        }
        match parse_fragment(&frags[i]) {
            Ok(edit) => {
                let ghost prev = out@.map_values(|e: CellEdit| e@);
                let ghost em = edit@;
                out.push(edit);
                proof {
                    assert(out@.map_values(|e: CellEdit| e@) =~~= prev.push(em));
                    let tail = parse_frags(fs.skip(i + 1));
                    if tail is Ok {
                        assert(parse_frags(fs.skip(i as int)) == Ok::<Seq<EditModel>, ErrModel>(
                            seq![frag_edit(fs[i as int])] + tail->Ok_0,
                        ));
                        assert(prev + (seq![em] + tail->Ok_0) =~~= prev.push(em) + tail->Ok_0);
                    }
                }
            },
            Err(err) => {
                proof {
                    assert(parse_frags(fs.skip(i as int)) == Err::<Seq<EditModel>, ErrModel>(
                        err@,
                    ));
                }
                return Err(err);
            },
        }
    }
    proof {
        assert(fs.skip(fs.len() as int) =~~= Seq::<Seq<char>>::empty());
        assert(out@.map_values(|e: CellEdit| e@) + Seq::<EditModel>::empty() =~~= out@.map_values(
            |e: CellEdit| e@,
        ));
    }
    Ok(out)
}

/// The concatenation of a list of payloads, in order, with nothing added.
pub open spec fn concat_payloads(ps: Seq<Seq<char>>) -> Seq<char>
    decreases ps.len(),
{
    if ps.len() == 0 {
        Seq::empty()
    } else {
        concat_payloads(ps.drop_last()) + ps.last()
    }
}

/// Concatenates already-delimited payloads back into one batch string: the
/// lossless replay primitive, not a re-serialization.
pub fn encode_batch(payloads: &Vec<String>) -> (r: String)
    ensures
        r@ == concat_payloads(payloads.deep_view()),
{
    let mut acc = String::new();
    for i in 0..payloads.len()
        invariant
            acc@ == concat_payloads(payloads.deep_view().take(i as int)),
    {
        proof {
            assert(payloads.deep_view().take(i + 1).drop_last() == payloads.deep_view().take(
                i as int,
            ));
            assert(payloads.deep_view().take(i + 1).last() == payloads.deep_view()[i as int]);
        }
        vstd::string::StringExecFns::append(&mut acc, payloads[i].as_str());
    }
    proof {
        assert(payloads.deep_view().take(payloads@.len() as int) == payloads.deep_view());
    }
    acc
}

} // verus!
