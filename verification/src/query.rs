//! The oracle query protocol.
//!
//! At run time the executing program may issue a textual query — the one
//! stable wire format of the engine — asking the host for data that cannot be
//! embedded statically into the program. A query is `"<tag>", <arg>[, <arg>]`
//! with the tag quoted, arguments comma-separated, and each argument a
//! decimal integer or a field literal. The fixed tags are `input`, `data`,
//! `print_char` and `hint`; anything else is malformed. The dispatcher fails
//! fast: a wrong oracle answer would silently corrupt the witness, so any
//! defect aborts the current run.

use crate::errors::{ParseError, QueryError};
use crate::field::{
    all_dec_digits, dec_val, is_dec_digit, is_hex_digit, lemma_decimal_encodes, parse_dec_u64,
    spec_decimal, spec_parse_literal, FieldElement, FIELD_MODULUS,
};
use crate::table::{spec_channel, DataTable};
use vstd::arithmetic::div_mod::lemma_small_mod;
use vstd::prelude::*;

verus! {

// ---------------------------------------------------------------------------
// Splitting the query text at commas, and trimming spaces
// ---------------------------------------------------------------------------
/// The pieces of `s` between its commas, in order; always at least one piece.
pub open spec fn spec_split_commas(s: Seq<u8>) -> Seq<Seq<u8>>
    decreases s.len(),
{
    if s.len() == 0 {
        seq![Seq::<u8>::empty()]
    } else {
        let r = spec_split_commas(s.drop_last());
        if s.last() == 0x2Cu8 {
            r.push(Seq::<u8>::empty())
        } else {
            r.update(r.len() - 1, r.last().push(s.last()))
        }
    }
}

pub proof fn lemma_split_commas_len(s: Seq<u8>)
    ensures
        spec_split_commas(s).len() >= 1,
    decreases s.len(),
{
    if s.len() > 0 {
        lemma_split_commas_len(s.drop_last());
    }
}

pub open spec fn spec_trim_front(s: Seq<u8>) -> Seq<u8>
    decreases s.len(),
{
    if s.len() > 0 && s[0] == 0x20u8 {
        spec_trim_front(s.drop_first())
    } else {
        s
    }
}

pub open spec fn spec_trim_back(s: Seq<u8>) -> Seq<u8>
    decreases s.len(),
{
    if s.len() > 0 && s.last() == 0x20u8 {
        spec_trim_back(s.drop_last())
    } else {
        s
    }
}

/// `s` without its leading and trailing spaces.
pub open spec fn spec_trim(s: Seq<u8>) -> Seq<u8> {
    spec_trim_front(spec_trim_back(s))
}

// ---------------------------------------------------------------------------
// The fixed query tags
// ---------------------------------------------------------------------------
pub open spec fn tag_input() -> Seq<u8> {
    seq![0x69u8, 0x6eu8, 0x70u8, 0x75u8, 0x74u8]
}

pub open spec fn tag_data() -> Seq<u8> {
    seq![0x64u8, 0x61u8, 0x74u8, 0x61u8]
}

pub open spec fn tag_print_char() -> Seq<u8> {
    seq![0x70u8, 0x72u8, 0x69u8, 0x6eu8, 0x74u8, 0x5fu8, 0x63u8, 0x68u8, 0x61u8, 0x72u8]
}

pub open spec fn tag_hint() -> Seq<u8> {
    seq![0x68u8, 0x69u8, 0x6eu8, 0x74u8]
}

// ---------------------------------------------------------------------------
// What the dispatcher answers
// ---------------------------------------------------------------------------
/// The ways a query can fail, over mathematical values; the view of
/// `QueryError`.
pub enum QueryFailure {
    /// A malformed literal or malformed query syntax; carries the text that
    /// failed.
    Malformed(Seq<u8>),
    /// An index past the end of a channel.
    OutOfBounds { name: Seq<u8>, index: int, len: int },
    /// No channel with this key in the data table.
    NoChannel { channel: int },
    /// An unrecognized tag, or an argument count that does not fit the tag.
    Unknown(Seq<u8>),
}

impl View for ParseError {
    type V = Seq<u8>;

    open spec fn view(&self) -> Seq<u8> {
        self.text@
    }
}

impl View for QueryError {
    type V = QueryFailure;

    open spec fn view(&self) -> QueryFailure {
        match self {
            QueryError::Parse(e) => QueryFailure::Malformed(e.text@),
            QueryError::IndexOutOfBounds { name, index, len } => QueryFailure::OutOfBounds {
                name: name@,
                index: *index as int,
                len: *len as int,
            },
            QueryError::UnknownChannel { channel } => QueryFailure::NoChannel {
                channel: *channel as int,
            },
            QueryError::Unsupported(q) => QueryFailure::Unknown(q@),
        }
    }
}

/// Reading element `idx_text` of the channel keyed `channel`: the index must
/// be a plain decimal integer, the channel must exist, and the index must lie
/// below the channel length; exactly then the element is returned.
pub open spec fn spec_channel_read(
    t: Seq<(int, Seq<int>)>,
    name: Seq<u8>,
    channel: int,
    idx_text: Seq<u8>,
) -> Result<(Option<int>, Seq<u8>), QueryFailure> {
    if !(idx_text.len() > 0 && all_dec_digits(idx_text) && dec_val(idx_text) <= u64::MAX) {
        Err(QueryFailure::Malformed(idx_text))
    } else {
        let idx = dec_val(idx_text);
        match spec_channel(t, channel) {
            None => Err(QueryFailure::NoChannel { channel }),
            Some(c) => if idx < c.len() {
                Ok((Some(c[idx]), Seq::<u8>::empty()))
            } else {
                Err(QueryFailure::OutOfBounds { name, index: idx, len: c.len() as int })
            },
        }
    }
}

/// The dispatcher's full answer to the query text `q` against the table `t`:
/// the field element handed back to the program (with the bytes emitted to
/// the host's output stream), or the failure that aborts the run.
pub open spec fn spec_respond(q: Seq<u8>, t: Seq<(int, Seq<int>)>) -> Result<
    (Option<int>, Seq<u8>),
    QueryFailure,
> {
    let raw = spec_split_commas(q);
    let tag_tok = spec_trim(raw[0]);
    if !(tag_tok.len() >= 2 && tag_tok[0] == 0x22u8 && tag_tok.last() == 0x22u8) {
        Err(QueryFailure::Malformed(q))
    } else {
        let tag = tag_tok.subrange(1, tag_tok.len() - 1);
        if tag == tag_input() {
            if raw.len() != 2 {
                Err(QueryFailure::Unknown(q))
            } else {
                spec_channel_read(t, tag_input(), 0, spec_trim(raw[1]))
            }
        } else if tag == tag_data() {
            if raw.len() != 3 {
                Err(QueryFailure::Unknown(q))
            } else {
                match spec_parse_literal(spec_trim(raw[2])) {
                    None => Err(QueryFailure::Malformed(spec_trim(raw[2]))),
                    Some(channel) => spec_channel_read(t, tag_data(), channel, spec_trim(raw[1])),
                }
            }
        } else if tag == tag_print_char() {
            if raw.len() != 2 {
                Err(QueryFailure::Unknown(q))
            } else {
                let code_text = spec_trim(raw[1]);
                if !(code_text.len() > 0 && all_dec_digits(code_text) && dec_val(code_text)
                    <= 255) {
                    Err(QueryFailure::Malformed(code_text))
                } else {
                    Ok((Some(0), seq![dec_val(code_text) as u8]))
                }
            }
        } else if tag == tag_hint() {
            if raw.len() != 2 {
                Err(QueryFailure::Unknown(q))
            } else {
                match spec_parse_literal(spec_trim(raw[1])) {
                    None => Err(QueryFailure::Malformed(spec_trim(raw[1]))),
                    Some(v) => Ok((Some(v), Seq::<u8>::empty())),
                }
            }
        } else {
            Err(QueryFailure::Unknown(q))
        }
    }
}

pub open spec fn opt_fe_view(o: Option<FieldElement>) -> Option<int> {
    match o {
        Some(fe) => Some(fe@),
        None => None,
    }
}

// ---------------------------------------------------------------------------
// Executable splitting, trimming and comparing
// ---------------------------------------------------------------------------
/// A fresh copy of the bytes of `v`.
pub(crate) fn copy_bytes(v: &Vec<u8>) -> (r: Vec<u8>)
    ensures
        r@ == v@,
{
    let mut r: Vec<u8> = Vec::new();
    let mut i: usize = 0;
    while i < v.len()
        invariant
            0 <= i <= v@.len(),
            r@ == v@.subrange(0, i as int),
        decreases v@.len() - i,
    {
        r.push(v[i]);
        proof {
            assert(v@.subrange(0, i as int + 1) =~= v@.subrange(0, i as int).push(v@[i as int]));
        }
        i = i + 1;
    }
    proof {
        assert(v@.subrange(0, i as int) =~= v@);
    }
    r
}

/// The bytes of `v` from `lo` to `hi`.
fn subvec(v: &Vec<u8>, lo: usize, hi: usize) -> (r: Vec<u8>)
    requires
        lo <= hi <= v@.len(),
    ensures
        r@ == v@.subrange(lo as int, hi as int),
{
    let mut r: Vec<u8> = Vec::new();
    let mut i: usize = lo;
    while i < hi
        invariant
            lo <= i <= hi <= v@.len(),
            r@ == v@.subrange(lo as int, i as int),
        decreases hi - i,
    {
        r.push(v[i]);
        proof {
            assert(v@.subrange(lo as int, i as int + 1) =~= v@.subrange(lo as int, i as int).push(
                v@[i as int],
            ));
        }
        i = i + 1;
    }
    r
}

fn bytes_eq(a: &Vec<u8>, b: &Vec<u8>) -> (r: bool)
    ensures
        r <==> a@ == b@,
{
    if a.len() != b.len() {
        proof {
            assert(a@.len() != b@.len());
        }
        return false;
    }
    let mut i: usize = 0;
    while i < a.len()
        invariant
            0 <= i <= a@.len(),
            a@.len() == b@.len(),
            forall|j: int| 0 <= j < i ==> a@[j] == b@[j],
        decreases a@.len() - i,
    {
        if a[i] != b[i] {
            return false;
        }
        i = i + 1;
    }
    proof {
        assert(a@ =~= b@);
    }
    true
}

proof fn lemma_trim_front_skip(s: Seq<u8>, k: int)
    requires
        0 <= k <= s.len(),
        forall|j: int| 0 <= j < k ==> s[j] == 0x20u8,
        k < s.len() ==> s[k] != 0x20u8,
    ensures
        spec_trim_front(s) == s.skip(k),
    decreases k,
{
    if k == 0 {
        assert(s.skip(0) =~= s);
    } else {
        assert(s[0] == 0x20u8);
        lemma_trim_front_skip(s.drop_first(), k - 1);
        assert(s.drop_first().skip(k - 1) =~= s.skip(k));
    }
}

proof fn lemma_trim_back_take(s: Seq<u8>, k: int)
    requires
        0 <= k <= s.len(),
        forall|j: int| k <= j < s.len() ==> s[j] == 0x20u8,
        k > 0 ==> s[k - 1] != 0x20u8,
    ensures
        spec_trim_back(s) == s.take(k),
    decreases s.len() - k,
{
    if k == s.len() {
        assert(s.take(k) =~= s);
    } else {
        assert(s.last() == 0x20u8);
        lemma_trim_back_take(s.drop_last(), k);
        assert(s.drop_last().take(k) =~= s.take(k));
    }
}

/// `v` without its leading and trailing spaces.
fn trim(v: &Vec<u8>) -> (r: Vec<u8>)
    ensures
        r@ == spec_trim(v@),
{
    let mut hi: usize = v.len();
    while hi > 0 && v[hi - 1] == 0x20
        invariant
            0 <= hi <= v@.len(),
            forall|j: int| hi <= j < v@.len() ==> v@[j] == 0x20u8,
        decreases hi,
    {
        hi = hi - 1;
    }
    let mut lo: usize = 0;
    while lo < hi && v[lo] == 0x20
        invariant
            0 <= lo <= hi <= v@.len(),
            forall|j: int| 0 <= j < lo ==> v@[j] == 0x20u8,
        decreases hi - lo,
    {
        lo = lo + 1;
    }
    proof {
        lemma_trim_back_take(v@, hi as int);
        lemma_trim_front_skip(v@.take(hi as int), lo as int);
        assert(v@.take(hi as int).skip(lo as int) =~= v@.subrange(lo as int, hi as int));
    }
    subvec(v, lo, hi)
}

/// The pieces of `q` between its commas.
fn split_commas(q: &Vec<u8>) -> (r: Vec<Vec<u8>>)
    ensures
        r@.map_values(|p: Vec<u8>| p@) == spec_split_commas(q@),
        r@.len() >= 1,
{
    let mut done: Vec<Vec<u8>> = Vec::new();
    let mut cur: Vec<u8> = Vec::new();
    let mut i: usize = 0;
    proof {
        assert(q@.subrange(0, 0) =~= Seq::<u8>::empty());
        assert(done@.map_values(|p: Vec<u8>| p@).push(cur@) =~= spec_split_commas(
            q@.subrange(0, 0),
        ));
    }
    while i < q.len()
        invariant
            0 <= i <= q@.len(),
            done@.map_values(|p: Vec<u8>| p@).push(cur@) == spec_split_commas(
                q@.subrange(0, i as int),
            ),
        decreases q@.len() - i,
    {
        let b = q[i];
        proof {
            let pre = q@.subrange(0, i as int);
            let ext = q@.subrange(0, i as int + 1);
            assert(ext.drop_last() =~= pre);
            assert(ext.last() == q@[i as int]);
            lemma_split_commas_len(pre);
        }
        if b == 0x2C {
            done.push(cur);
            cur = Vec::new();
            proof {
                let views = |p: Vec<u8>| p@;
                assert(done@.map_values(views).push(cur@) =~= spec_split_commas(
                    q@.subrange(0, i as int + 1),
                ));
            }
        } else {
            cur.push(b);
            proof {
                let views = |p: Vec<u8>| p@;
                let pre = q@.subrange(0, i as int);
                let sp = spec_split_commas(pre);
                assert(sp.last() == cur@.drop_last());
                assert(cur@.drop_last().push(b) =~= cur@);
                assert(done@.map_values(views).push(cur@) =~= spec_split_commas(
                    q@.subrange(0, i as int + 1),
                ));
            }
        }
        i = i + 1;
    }
    let ghost done_views = done@.map_values(|p: Vec<u8>| p@);
    done.push(cur);
    proof {
        assert(q@.subrange(0, i as int) =~= q@);
        assert(done@.map_values(|p: Vec<u8>| p@) =~= done_views.push(cur@));
        lemma_split_commas_len(q@);
    }
    done
}

fn tag_input_vec() -> (r: Vec<u8>)
    ensures
        r@ == tag_input(),
{
    let mut r: Vec<u8> = Vec::new();
    r.push(0x69);
    r.push(0x6e);
    r.push(0x70);
    r.push(0x75);
    r.push(0x74);
    proof {
        assert(r@ =~= tag_input());
    }
    r
}

fn tag_data_vec() -> (r: Vec<u8>)
    ensures
        r@ == tag_data(),
{
    let mut r: Vec<u8> = Vec::new();
    r.push(0x64);
    r.push(0x61);
    r.push(0x74);
    r.push(0x61);
    proof {
        assert(r@ =~= tag_data());
    }
    r
}

fn tag_print_char_vec() -> (r: Vec<u8>)
    ensures
        r@ == tag_print_char(),
{
    let mut r: Vec<u8> = Vec::new();
    r.push(0x70);
    r.push(0x72);
    r.push(0x69);
    r.push(0x6e);
    r.push(0x74);
    r.push(0x5f);
    r.push(0x63);
    r.push(0x68);
    r.push(0x61);
    r.push(0x72);
    proof {
        assert(r@ =~= tag_print_char());
    }
    r
}

fn tag_hint_vec() -> (r: Vec<u8>)
    ensures
        r@ == tag_hint(),
{
    let mut r: Vec<u8> = Vec::new();
    r.push(0x68);
    r.push(0x69);
    r.push(0x6e);
    r.push(0x74);
    proof {
        assert(r@ =~= tag_hint());
    }
    r
}

// ---------------------------------------------------------------------------
// The dispatcher
// ---------------------------------------------------------------------------
fn channel_read(table: &DataTable, name: Vec<u8>, channel: u64, idx_text: &Vec<u8>) -> (r: Result<
    FieldElement,
    QueryError,
>)
    ensures
        match spec_channel_read(table@, name@, channel as int, idx_text@) {
            Ok(p) => r matches Ok(fe) && p == (Some(fe@), Seq::<u8>::empty()),
            Err(f) => r matches Err(e) && e@ == f,
        },
{
    match parse_dec_u64(idx_text) {
        None => Err(QueryError::Parse(ParseError { text: copy_bytes(idx_text) })),
        Some(idx) => match table.channel_len(channel) {
            None => Err(QueryError::UnknownChannel { channel }),
            Some(len) => {
                if idx < len {
                    match table.channel_element(channel, idx) {
                        Some(fe) => Ok(fe),
                        None => {
                            proof {
                                assert(false);
                            }
                            Err(QueryError::UnknownChannel { channel })
                        },
                    }
                } else {
                    Err(QueryError::IndexOutOfBounds { name, index: idx, len })
                }
            },
        },
    }
}

/// Answers one oracle query against the host-supplied table. On success the
/// answer is handed back and any `print_char` byte is appended to `output`;
/// on failure the caller must abort the current run, and `output` is
/// untouched.
pub fn respond(query: &Vec<u8>, table: &DataTable, output: &mut Vec<u8>) -> (r: Result<
    Option<FieldElement>,
    QueryError,
>)
    ensures
        match spec_respond(query@, table@) {
            Ok(p) => r matches Ok(ans) && p.0 == opt_fe_view(ans) && final(output)@ == old(
                output,
            )@ + p.1,
            Err(f) => r matches Err(e) && e@ == f && final(output)@ == old(output)@,
        },
{
    proof {
        assert(old(output)@ + Seq::<u8>::empty() =~= old(output)@);
    }
    let pieces = split_commas(query);
    let tag_tok = trim(&pieces[0]);
    proof {
        assert(pieces@.map_values(|p: Vec<u8>| p@)[0] == pieces@[0]@);
    }
    let tl = tag_tok.len();
    if !(tl >= 2 && tag_tok[0] == 0x22 && tag_tok[tl - 1] == 0x22) {
        return Err(QueryError::Parse(ParseError { text: copy_bytes(query) }));
    }
    let tag = subvec(&tag_tok, 1, tl - 1);
    let n = pieces.len();
    if bytes_eq(&tag, &tag_input_vec()) {
        if n != 2 {
            return Err(QueryError::Unsupported(copy_bytes(query)));
        }
        let idx_tok = trim(&pieces[1]);
        proof {
            assert(pieces@.map_values(|p: Vec<u8>| p@)[1] == pieces@[1]@);
        }
        match channel_read(table, tag_input_vec(), 0, &idx_tok) {
            Ok(fe) => Ok(Some(fe)),
            Err(e) => Err(e),
        }
    } else if bytes_eq(&tag, &tag_data_vec()) {
        if n != 3 {
            return Err(QueryError::Unsupported(copy_bytes(query)));
        }
        let chan_tok = trim(&pieces[2]);
        let idx_tok = trim(&pieces[1]);
        proof {
            assert(pieces@.map_values(|p: Vec<u8>| p@)[1] == pieces@[1]@);
            assert(pieces@.map_values(|p: Vec<u8>| p@)[2] == pieces@[2]@);
        }
        match FieldElement::from_literal(&chan_tok) {
            Err(pe) => Err(QueryError::Parse(pe)),
            Ok(channel) => {
                match channel_read(table, tag_data_vec(), channel.val(), &idx_tok) {
                    Ok(fe) => Ok(Some(fe)),
                    Err(e) => Err(e),
                }
            },
        }
    } else if bytes_eq(&tag, &tag_print_char_vec()) {
        if n != 2 {
            return Err(QueryError::Unsupported(copy_bytes(query)));
        }
        let code_tok = trim(&pieces[1]);
        proof {
            assert(pieces@.map_values(|p: Vec<u8>| p@)[1] == pieces@[1]@);
        }
        match parse_dec_u64(&code_tok) {
            None => Err(QueryError::Parse(ParseError { text: code_tok })),
            Some(code) => {
                if code <= 255 {
                    output.push(code as u8);
                    proof {
                        assert(output@ =~= old(output)@ + seq![dec_val(code_tok@) as u8]);
                    }
                    Ok(Some(FieldElement::zero()))
                } else {
                    Err(QueryError::Parse(ParseError { text: code_tok }))
                }
            },
        }
    } else if bytes_eq(&tag, &tag_hint_vec()) {
        if n != 2 {
            return Err(QueryError::Unsupported(copy_bytes(query)));
        }
        let lit_tok = trim(&pieces[1]);
        proof {
            assert(pieces@.map_values(|p: Vec<u8>| p@)[1] == pieces@[1]@);
        }
        match FieldElement::from_literal(&lit_tok) {
            Err(pe) => Err(QueryError::Parse(pe)),
            Ok(fe) => Ok(Some(fe)),
        }
    } else {
        Err(QueryError::Unsupported(copy_bytes(query)))
    }
}

// ---------------------------------------------------------------------------
// Laws of the protocol
// ---------------------------------------------------------------------------
pub open spec fn comma_free(s: Seq<u8>) -> bool {
    forall|i: int| 0 <= i < s.len() ==> s[i] != 0x2Cu8
}

proof fn lemma_split_no_comma(p: Seq<u8>)
    requires
        comma_free(p),
    ensures
        spec_split_commas(p) == seq![p],
    decreases p.len(),
{
    if p.len() == 0 {
        assert(spec_split_commas(p) =~~= seq![p]);
    } else {
        assert(comma_free(p.drop_last()));
        lemma_split_no_comma(p.drop_last());
        assert(p.last() != 0x2Cu8);
        assert(seq![p.drop_last()].last() == p.drop_last());
        assert(p.drop_last().push(p.last()) =~= p);
        assert(spec_split_commas(p) =~~= seq![p]);
    }
}

proof fn lemma_split_append(s: Seq<u8>, p: Seq<u8>)
    requires
        comma_free(p),
    ensures
        spec_split_commas(s + seq![0x2Cu8] + p) == spec_split_commas(s).push(p),
    decreases p.len(),
{
    lemma_split_commas_len(s);
    if p.len() == 0 {
        let t = s + seq![0x2Cu8] + p;
        assert(t =~= s + seq![0x2Cu8]);
        assert((s + seq![0x2Cu8]).last() == 0x2Cu8);
        assert((s + seq![0x2Cu8]).drop_last() =~= s);
        assert(spec_split_commas(t) =~~= spec_split_commas(s).push(p));
    } else {
        let t = s + seq![0x2Cu8] + p;
        assert(comma_free(p.drop_last()));
        lemma_split_append(s, p.drop_last());
        let t0 = s + seq![0x2Cu8] + p.drop_last();
        assert(t.len() == s.len() + 1 + p.len());
        assert(t.last() == p.last());
        assert(t.last() != 0x2Cu8);
        assert(t.drop_last() =~= t0);
        let r0 = spec_split_commas(s).push(p.drop_last());
        assert(spec_split_commas(t0) == r0);
        assert(r0.last() == p.drop_last());
        assert(p.drop_last().push(p.last()) =~= p);
        assert(spec_split_commas(t) == r0.update(r0.len() - 1, p.drop_last().push(p.last())));
        assert(spec_split_commas(t) =~~= spec_split_commas(s).push(p));
    }
}

/// A tag as it stands in the query text: wrapped in double quotes.
pub open spec fn quoted(tag: Seq<u8>) -> Seq<u8> {
    seq![0x22u8] + tag + seq![0x22u8]
}

/// The canonical `data` query text: `"data", <index>, <channel>`, both
/// arguments in decimal.
pub open spec fn spec_data_query(index: u64, channel: u64) -> Seq<u8> {
    quoted(tag_data()) + seq![0x2Cu8] + spec_decimal(index as nat) + seq![0x2Cu8] + spec_decimal(
        channel as nat,
    )
}

/// The canonical `print_char` query text.
pub open spec fn spec_print_char_query(code: u64) -> Seq<u8> {
    quoted(tag_print_char()) + seq![0x2Cu8] + spec_decimal(code as nat)
}

/// A `hint` query text carrying the literal `lit`.
pub open spec fn spec_hint_query(lit: Seq<u8>) -> Seq<u8> {
    quoted(tag_hint()) + seq![0x2Cu8] + lit
}

proof fn lemma_trim_id(s: Seq<u8>)
    requires
        s.len() > 0,
        s[0] != 0x20u8,
        s.last() != 0x20u8,
    ensures
        spec_trim(s) == s,
{
}

proof fn lemma_decimal_token(n: nat)
    ensures
        comma_free(spec_decimal(n)),
        spec_trim(spec_decimal(n)) == spec_decimal(n),
        spec_decimal(n).len() > 0,
        all_dec_digits(spec_decimal(n)),
        dec_val(spec_decimal(n)) == n,
{
    lemma_decimal_encodes(n);
    let d = spec_decimal(n);
    assert forall|i: int| 0 <= i < d.len() implies d[i] != 0x2Cu8 by {
        assert(is_dec_digit(d[i]));
    }
    assert(is_dec_digit(d[0]));
    assert(is_dec_digit(d.last()));
    lemma_trim_id(d);
}

proof fn lemma_quoted_token(tag: Seq<u8>)
    requires
        comma_free(tag),
        forall|i: int| 0 <= i < tag.len() ==> tag[i] != 0x20u8,
    ensures
        comma_free(quoted(tag)),
        spec_trim(quoted(tag)) == quoted(tag),
        quoted(tag).len() == tag.len() + 2,
        quoted(tag)[0] == 0x22u8,
        quoted(tag).last() == 0x22u8,
        quoted(tag).subrange(1, tag.len() as int + 1) == tag,
{
    let q = quoted(tag);
    assert forall|i: int| 0 <= i < q.len() implies q[i] != 0x2Cu8 by {
        if 1 <= i < tag.len() + 1 {
            assert(q[i] == tag[i - 1]);
        }
    }
    lemma_trim_id(q);
    assert(q.subrange(1, tag.len() as int + 1) =~= tag);
}

proof fn lemma_tag_chars(tag: Seq<u8>)
    requires
        all_dec_digits(tag) || tag == tag_data() || tag == tag_input() || tag == tag_print_char()
            || tag == tag_hint(),
    ensures
        comma_free(tag),
        forall|i: int| 0 <= i < tag.len() ==> tag[i] != 0x20u8,
{
    assert forall|i: int| 0 <= i < tag.len() implies tag[i] != 0x2Cu8 && tag[i] != 0x20u8 by {
        if all_dec_digits(tag) {
            assert(is_dec_digit(tag[i]));
        }
    }
}

/// The split of a three-piece query text built from comma-free tokens.
proof fn lemma_split_three(a: Seq<u8>, b: Seq<u8>, c: Seq<u8>)
    requires
        comma_free(a),
        comma_free(b),
        comma_free(c),
    ensures
        spec_split_commas(a + seq![0x2Cu8] + b + seq![0x2Cu8] + c) == seq![a, b, c],
{
    lemma_split_no_comma(a);
    lemma_split_append(a, b);
    lemma_split_append(a + seq![0x2Cu8] + b, c);
    assert(seq![a].push(b).push(c) =~~= seq![a, b, c]);
}

/// The split of a two-piece query text built from comma-free tokens.
proof fn lemma_split_two(a: Seq<u8>, b: Seq<u8>)
    requires
        comma_free(a),
        comma_free(b),
    ensures
        spec_split_commas(a + seq![0x2Cu8] + b) == seq![a, b],
{
    lemma_split_no_comma(a);
    lemma_split_append(a, b);
    assert(seq![a].push(b) =~~= seq![a, b]);
}

/// Law: a `data` query reads the channel exactly. For every index below the
/// channel length the dispatcher answers that element; for every index at or
/// past the length it fails with the out-of-bounds error carrying that index
/// and the channel length.
pub proof fn lemma_data_query_semantics(
    t: Seq<(int, Seq<int>)>,
    index: u64,
    channel: u64,
    contents: Seq<int>,
)
    requires
        channel < FIELD_MODULUS,
        spec_channel(t, channel as int) == Some(contents),
    ensures
        index < contents.len() ==> spec_respond(spec_data_query(index, channel), t) == Ok::<
            (Option<int>, Seq<u8>),
            QueryFailure,
        >((Some(contents[index as int]), Seq::<u8>::empty())),
        index >= contents.len() ==> spec_respond(spec_data_query(index, channel), t) == Err::<
            (Option<int>, Seq<u8>),
            QueryFailure,
        >(
            QueryFailure::OutOfBounds {
                name: tag_data(),
                index: index as int,
                len: contents.len() as int,
            },
        ),
{
    let q = spec_data_query(index, channel);
    let qd = quoted(tag_data());
    let di = spec_decimal(index as nat);
    let dc = spec_decimal(channel as nat);
    lemma_tag_chars(tag_data());
    lemma_quoted_token(tag_data());
    lemma_decimal_token(index as nat);
    lemma_decimal_token(channel as nat);
    lemma_split_three(qd, di, dc);
    let raw = spec_split_commas(q);
    assert(raw[0] == qd && raw[1] == di && raw[2] == dc && raw.len() == 3);
    let tag_tok = spec_trim(raw[0]);
    assert(tag_tok == qd);
    assert(tag_tok.subrange(1, tag_tok.len() - 1) == tag_data());
    assert(tag_data() != tag_input());
    assert(spec_trim(raw[2]) == dc);
    lemma_decimal_encodes(channel as nat);
    if dc.len() >= 2 {
        assert(is_dec_digit(dc[1]));
        assert(dc[1] != 0x78u8);
    }
    assert(spec_parse_literal(dc) == Some(channel as int % FIELD_MODULUS as int));
    lemma_small_mod(channel as nat, FIELD_MODULUS as nat);
    assert(spec_parse_literal(dc) == Some(channel as int));
    assert(spec_trim(raw[1]) == di);
    assert(dec_val(di) == index);
    assert(spec_respond(q, t) == spec_channel_read(t, tag_data(), channel as int, di));
}

/// Law: a `print_char` query with a code of at most 255 always answers the
/// fixed sentinel zero, and emits exactly that byte to the host's output —
/// every call emits again, so the engine services each oracle call site at
/// most once per cycle.
pub proof fn lemma_print_char_semantics(t: Seq<(int, Seq<int>)>, code: u64)
    requires
        code <= 255,
    ensures
        spec_respond(spec_print_char_query(code), t) == Ok::<(Option<int>, Seq<u8>), QueryFailure>(
            (Some(0), seq![code as u8]),
        ),
{
    let q = spec_print_char_query(code);
    let qt = quoted(tag_print_char());
    let dc = spec_decimal(code as nat);
    lemma_tag_chars(tag_print_char());
    lemma_quoted_token(tag_print_char());
    lemma_decimal_token(code as nat);
    lemma_split_two(qt, dc);
    let raw = spec_split_commas(q);
    assert(raw[0] == qt && raw[1] == dc && raw.len() == 2);
    assert(spec_trim(raw[0]) == qt);
    assert(qt.subrange(1, qt.len() - 1) == tag_print_char());
    assert(tag_print_char() != tag_input());
    assert(tag_print_char() != tag_data());
    assert(spec_trim(raw[1]) == dc);
    assert(dec_val(dc) == code);
}

/// Law: a `hint` query round-trips. For any syntactically valid literal the
/// dispatcher answers its canonical field value, and a `hint` query carrying
/// the canonical re-encoding of that value answers the same value.
pub proof fn lemma_hint_query_round_trip(t: Seq<(int, Seq<int>)>, lit: Seq<u8>, v: int)
    requires
        spec_parse_literal(lit) == Some(v),
    ensures
        spec_respond(spec_hint_query(lit), t) == Ok::<(Option<int>, Seq<u8>), QueryFailure>(
            (Some(v), Seq::<u8>::empty()),
        ),
        spec_respond(spec_hint_query(spec_decimal(v as nat)), t) == Ok::<
            (Option<int>, Seq<u8>),
            QueryFailure,
        >((Some(v), Seq::<u8>::empty())),
{
    crate::field::lemma_literal_round_trip(lit, v);
    lemma_hint_query_answers(t, lit, v);
    lemma_decimal_token(v as nat);
    lemma_hint_query_answers(t, spec_decimal(v as nat), v);
}

/// A `hint` query carrying any valid literal answers its canonical value.
proof fn lemma_hint_query_answers(t: Seq<(int, Seq<int>)>, lit: Seq<u8>, v: int)
    requires
        spec_parse_literal(lit) == Some(v),
    ensures
        spec_respond(spec_hint_query(lit), t) == Ok::<(Option<int>, Seq<u8>), QueryFailure>(
            (Some(v), Seq::<u8>::empty()),
        ),
{
    let q = spec_hint_query(lit);
    let qt = quoted(tag_hint());
    lemma_tag_chars(tag_hint());
    lemma_quoted_token(tag_hint());
    assert forall|i: int| 0 <= i < lit.len() implies lit[i] != 0x2Cu8 && lit[i] != 0x20u8 by {
        if lit.len() >= 2 && lit[0] == 0x30u8 && lit[1] == 0x78u8 {
            if i >= 2 {
                assert(is_hex_digit(lit.skip(2)[i - 2]));
                assert(lit.skip(2)[i - 2] == lit[i]);
            } else if i == 1 {
                assert(lit[1] == 0x78u8);
            } else {
                assert(lit[0] == 0x30u8);
            }
        } else {
            assert(is_dec_digit(lit[i]));
        }
    }
    assert(lit.len() > 0);
    lemma_trim_id(lit);
    lemma_split_two(qt, lit);
    let raw = spec_split_commas(q);
    assert(raw[0] == qt && raw[1] == lit && raw.len() == 2);
    assert(spec_trim(raw[0]) == qt);
    assert(qt.subrange(1, qt.len() - 1) == tag_hint());
    assert(tag_hint() != tag_input());
    assert(tag_hint() != tag_data());
    assert(tag_hint() != tag_print_char());
    assert(spec_trim(raw[1]) == lit);
}

} // verus!
