//! RESP (Redis serialization protocol) frames: the wire model, the encoder,
//! and the incremental decoder.

use vstd::prelude::*;

verus! {

broadcast use vstd::std_specs::vec::axiom_vec_index_decreases;

/// Error type for protocol-level operations.
#[derive(Debug)]
pub enum RedisError {
    /// The bytes do not form a well-formed frame.
    Protocol(String),
    /// The command name is not one the dispatcher knows.
    UnknownCommand(String),
    /// The command came with the wrong number of arguments.
    WrongArity(String),
    /// A requested entity does not exist.
    NotFound(String),
    /// An internal failure surfaced to the client.
    Internal(String),
}

/// One RESP frame.
pub enum RedisFrame {
    /// `+text\r\n`
    SimpleString(String),
    /// `-text\r\n`
    Error(String),
    /// `:decimal\r\n`
    Integer(i64),
    /// `$len\r\ntext\r\n`
    BulkString(String),
    /// `*len\r\n` followed by the encodings of the elements.
    Array(Vec<RedisFrame>),
    /// `$-1\r\n`
    Null,
}

/// The mathematical shape of a frame: text as character sequences, arrays as
/// sequences of frames.
pub ghost enum FrameModel {
    Simple(Seq<char>),
    Fault(Seq<char>),
    Int(int),
    Bulk(Seq<char>),
    Arr(Seq<FrameModel>),
    Nil,
}

impl View for RedisFrame {
    type V = FrameModel;

    open spec fn view(&self) -> FrameModel
        decreases self,
    {
        match self {
            RedisFrame::SimpleString(s) => FrameModel::Simple(s@),
            RedisFrame::Error(s) => FrameModel::Fault(s@),
            RedisFrame::Integer(i) => FrameModel::Int(*i as int),
            RedisFrame::BulkString(s) => FrameModel::Bulk(s@),
            RedisFrame::Array(xs) => FrameModel::Arr(
                Seq::new(
                    xs@.len(),
                    |i: int|
                        if 0 <= i < xs.len() {
                            xs[i]@
                        } else {
                            FrameModel::Nil
                        },
                ),
            ),
            RedisFrame::Null => FrameModel::Nil,
        }
    }
}

/// ASCII whitespace, as the inline-command scanner understands it.
pub open spec fn is_ws(b: u8) -> bool {
    b == 9 || b == 10 || b == 11 || b == 12 || b == 13 || b == 32
}

/// ASCII decimal digit.
pub open spec fn is_digit(b: u8) -> bool {
    48 <= b <= 57
}

/// The wire bytes of a character sequence, one byte per character.
pub open spec fn chars_bytes(s: Seq<char>) -> Seq<u8> {
    s.map_values(|c: char| c as u8)
}

/// The characters read off a byte sequence, one character per byte.
pub open spec fn bytes_chars(b: Seq<u8>) -> Seq<char> {
    b.map_values(|x: u8| x as char)
}

/// The frame terminator `\r\n`.
pub open spec fn crlf() -> Seq<u8> {
    seq![13u8, 10u8]
}

/// Decimal digits of `n`, most significant first.
pub open spec fn dec_rep(n: nat) -> Seq<u8>
    decreases n,
{
    if n < 10 {
        seq![(48 + n) as u8]
    } else {
        dec_rep(n / 10).push((48 + n % 10) as u8)
    }
}

/// Decimal rendering of a signed integer: a minus sign for negative values,
/// then the digits of the magnitude.
pub open spec fn int_rep(i: int) -> Seq<u8> {
    if i < 0 {
        seq![45u8] + dec_rep((-i) as nat)
    } else {
        dec_rep(i as nat)
    }
}

/// The largest length or integer magnitude the decoder accepts: `i64::MAX`.
pub open spec fn max_magnitude() -> int {
    0x7fff_ffff_ffff_ffff
}

/// Line text: characters that fit in one wire byte each, with no embedded
/// CR or LF, so that a `+`/`-` line round-trips.
pub open spec fn line_ok(s: Seq<char>) -> bool {
    forall|i: int|
        0 <= i < s.len() ==> (#[trigger] s[i] as int) < 128 && s[i] != '\r' && s[i] != '\n'
}

/// Bulk text: characters that fit in one wire byte each.
pub open spec fn text_ok(s: Seq<char>) -> bool {
    forall|i: int| 0 <= i < s.len() ==> (#[trigger] s[i] as int) < 128
}

/// The frames of the wire grammar: those whose encoding decodes back to the
/// same frame. Text is byte-per-character, simple and error lines carry no
/// CR/LF, and integer magnitudes and lengths fit in an `i64`.
pub open spec fn wf(m: FrameModel) -> bool
    decreases m,
{
    match m {
        FrameModel::Simple(s) => line_ok(s),
        FrameModel::Fault(s) => line_ok(s),
        FrameModel::Int(i) => -max_magnitude() <= i <= max_magnitude(),
        FrameModel::Bulk(s) => text_ok(s) && s.len() <= max_magnitude(),
        FrameModel::Arr(xs) => xs.len() <= max_magnitude() && forall|i: int|
            0 <= i < xs.len() ==> wf(#[trigger] xs[i]),
        FrameModel::Nil => true,
    }
}

/// The RESP encoding of a frame.
pub open spec fn encode(m: FrameModel) -> Seq<u8>
    decreases m,
{
    match m {
        FrameModel::Simple(s) => seq![43u8] + chars_bytes(s) + crlf(),
        FrameModel::Fault(s) => seq![45u8] + chars_bytes(s) + crlf(),
        FrameModel::Int(i) => seq![58u8] + int_rep(i) + crlf(),
        FrameModel::Bulk(s) => seq![36u8] + dec_rep(s.len()) + crlf() + chars_bytes(s) + crlf(),
        FrameModel::Arr(xs) => seq![42u8] + dec_rep(xs.len()) + crlf() + encode_seq(xs),
        FrameModel::Nil => seq![36u8, 45u8, 49u8, 13u8, 10u8],
    }
}

/// The concatenated encodings of a sequence of frames.
pub open spec fn encode_seq(xs: Seq<FrameModel>) -> Seq<u8>
    decreases xs,
{
    if xs.len() == 0 {
        Seq::empty()
    } else {
        encode(xs[0]) + encode_seq(xs.subrange(1, xs.len() as int))
    }
}

/// Peeling one frame off the front of `encode_seq`.
pub proof fn lemma_encode_seq_take_succ(xs: Seq<FrameModel>, i: int)
    requires
        0 <= i < xs.len(),
    ensures
        encode_seq(xs.take(i + 1)) == encode_seq(xs.take(i)) + encode(xs[i]),
    decreases i,
{
    if i == 0 {
        assert(xs.take(1).subrange(1, 1) =~= Seq::<FrameModel>::empty());
        assert(xs.take(0) =~= Seq::<FrameModel>::empty());
        assert(xs.take(1)[0] == xs[0]);
        assert(encode_seq(xs.take(1)) == encode(xs[0]) + encode_seq(xs.take(1).subrange(1, 1)));
        assert(encode(xs[0]) + Seq::<u8>::empty() =~= encode(xs[0]));
        assert(encode_seq(Seq::<FrameModel>::empty()) + encode(xs[0]) =~= encode(xs[0]));
    } else {
        let ys = xs.subrange(1, xs.len() as int);
        lemma_encode_seq_take_succ(ys, i - 1);
        assert(xs.take(i + 1).subrange(1, i + 1) =~= ys.take(i));
        assert(xs.take(i).subrange(1, i) =~= ys.take(i - 1));
        assert(xs.take(i + 1)[0] == xs[0]);
        assert(xs.take(i)[0] == xs[0]);
        assert(encode_seq(xs.take(i + 1)) == encode(xs[0]) + encode_seq(ys.take(i)));
        assert(encode_seq(xs.take(i)) == encode(xs[0]) + encode_seq(ys.take(i - 1)));
        assert(ys[i - 1] == xs[i]);
        assert(encode(xs[0]) + (encode_seq(ys.take(i - 1)) + encode(xs[i])) =~= (encode(xs[0])
            + encode_seq(ys.take(i - 1))) + encode(xs[i]));
    }
}

/// Appends the decimal digits of `n` to `out`.
fn push_dec_digits(n: u64, out: &mut Vec<u8>)
    ensures
        final(out)@ == old(out)@ + dec_rep(n as nat),
    decreases n,
{
    if n < 10 {
        out.push(48 + n as u8);
    } else {
        push_dec_digits(n / 10, out);
        out.push(48 + (n % 10) as u8);
    }
}

/// What decoding finds at the head of a byte sequence: a frame and the
/// position just past it, a need for more bytes, or a protocol error.
pub ghost enum DecodeStep {
    Done(FrameModel, int),
    More,
    Bad,
}

/// What scanning a decimal run finds: the value and the position of the
/// terminating CR, a need for more bytes, or a stray byte.
pub ghost enum ScanOutcome {
    SDone { value: int, cr: int },
    SMore,
    SBad,
}

/// What decoding a run of array elements finds.
pub ghost enum ElemsStep {
    EDone(Seq<FrameModel>, int),
    EMore,
    EBad,
}

/// The position of the first CR at or after `pos`, if there is one.
pub open spec fn scan_line(data: Seq<u8>, pos: int) -> Option<int>
    decreases data.len() - pos,
        when 0 <= pos <= data.len()
{
    if pos >= data.len() {
        None
    } else if data[pos] == 13 {
        Some(pos)
    } else {
        scan_line(data, pos + 1)
    }
}

/// Reads decimal digits from `pos` up to a CR, folding them onto `acc`;
/// values above `max_magnitude` are refused.
pub open spec fn scan_int(data: Seq<u8>, pos: int, acc: int) -> ScanOutcome
    decreases data.len() - pos,
        when 0 <= pos <= data.len() && 0 <= acc <= max_magnitude()
{
    if pos >= data.len() {
        ScanOutcome::SMore
    } else if data[pos] == 13 {
        ScanOutcome::SDone { value: acc, cr: pos }
    } else if !is_digit(data[pos]) {
        ScanOutcome::SBad
    } else if acc * 10 + (data[pos] - 48) > max_magnitude() {
        ScanOutcome::SBad
    } else {
        scan_int(data, pos + 1, acc * 10 + (data[pos] - 48))
    }
}

/// Decodes one RESP value starting exactly at `pos`.
pub open spec fn dec_at(data: Seq<u8>, pos: int) -> DecodeStep
    decreases data.len() - pos, 0int, 0int,
        when 0 <= pos <= data.len()
{
    if pos >= data.len() {
        DecodeStep::More
    } else {
        let tag = data[pos];
        if tag == 43 || tag == 45 {
            match scan_line(data, pos + 1) {
                None => DecodeStep::More,
                Some(cr) => if cr + 1 >= data.len() {
                    DecodeStep::More
                } else if data[cr + 1] != 10 {
                    DecodeStep::Bad
                } else {
                    let text = bytes_chars(data.subrange(pos + 1, cr));
                    DecodeStep::Done(
                        if tag == 43 {
                            FrameModel::Simple(text)
                        } else {
                            FrameModel::Fault(text)
                        },
                        cr + 2,
                    )
                },
            }
        } else if tag == 58 {
            let neg = pos + 1 < data.len() && data[pos + 1] == 45;
            let dstart = if neg {
                pos + 2
            } else {
                pos + 1
            };
            match scan_int(data, dstart, 0) {
                ScanOutcome::SMore => DecodeStep::More,
                ScanOutcome::SBad => DecodeStep::Bad,
                ScanOutcome::SDone { value, cr } => if cr + 1 >= data.len() {
                    DecodeStep::More
                } else if data[cr + 1] != 10 {
                    DecodeStep::Bad
                } else {
                    DecodeStep::Done(
                        FrameModel::Int(
                            if neg {
                                -value
                            } else {
                                value
                            },
                        ),
                        cr + 2,
                    )
                },
            }
        } else if tag == 36 {
            let neg = pos + 1 < data.len() && data[pos + 1] == 45;
            let dstart = if neg {
                pos + 2
            } else {
                pos + 1
            };
            match scan_int(data, dstart, 0) {
                ScanOutcome::SMore => DecodeStep::More,
                ScanOutcome::SBad => DecodeStep::Bad,
                ScanOutcome::SDone { value, cr } => if cr + 1 >= data.len() {
                    DecodeStep::More
                } else if data[cr + 1] != 10 {
                    DecodeStep::Bad
                } else if neg {
                    DecodeStep::Done(FrameModel::Nil, cr + 2)
                } else if cr + 2 + value + 2 > data.len() {
                    DecodeStep::More
                } else if data[cr + 2 + value] != 13 || data[cr + 2 + value + 1] != 10 {
                    DecodeStep::Bad
                } else {
                    DecodeStep::Done(
                        FrameModel::Bulk(bytes_chars(data.subrange(cr + 2, cr + 2 + value))),
                        cr + 2 + value + 2,
                    )
                },
            }
        } else if tag == 42 {
            match scan_int(data, pos + 1, 0) {
                ScanOutcome::SMore => DecodeStep::More,
                ScanOutcome::SBad => DecodeStep::Bad,
                ScanOutcome::SDone { value, cr } => if cr + 1 >= data.len() {
                    DecodeStep::More
                } else if data[cr + 1] != 10 {
                    DecodeStep::Bad
                } else if cr + 2 <= pos || cr + 2 > data.len() || value < 0 {
                    DecodeStep::Bad
                } else {
                    match dec_elems(data, cr + 2, value) {
                        ElemsStep::EDone(fs, end) => DecodeStep::Done(FrameModel::Arr(fs), end),
                        ElemsStep::EMore => DecodeStep::More,
                        ElemsStep::EBad => DecodeStep::Bad,
                    }
                },
            }
        } else {
            DecodeStep::Bad
        }
    }
}

/// Decodes `n` consecutive RESP values starting at `pos`.
pub open spec fn dec_elems(data: Seq<u8>, pos: int, n: int) -> ElemsStep
    decreases data.len() - pos, 1int, n,
        when 0 <= pos <= data.len() && 0 <= n
{
    if n == 0 {
        ElemsStep::EDone(Seq::empty(), pos)
    } else {
        match dec_at(data, pos) {
            DecodeStep::More => ElemsStep::EMore,
            DecodeStep::Bad => ElemsStep::EBad,
            DecodeStep::Done(f, end) => if end <= pos || end > data.len() {
                ElemsStep::EBad
            } else {
                match dec_elems(data, end, n - 1) {
                    ElemsStep::EDone(fs, fin) => ElemsStep::EDone(seq![f] + fs, fin),
                    ElemsStep::EMore => ElemsStep::EMore,
                    ElemsStep::EBad => ElemsStep::EBad,
                }
            },
        }
    }
}

/// The first position at or after `pos` holding a byte that is not
/// whitespace, or the end of the data.
pub open spec fn skip_ws(data: Seq<u8>, pos: int) -> int
    decreases data.len() - pos,
        when 0 <= pos <= data.len()
{
    if pos >= data.len() {
        pos
    } else if is_ws(data[pos]) {
        skip_ws(data, pos + 1)
    } else {
        pos
    }
}

/// The position of the first CR or LF at or after `pos`, if there is one.
pub open spec fn scan_eol(data: Seq<u8>, pos: int) -> Option<int>
    decreases data.len() - pos,
        when 0 <= pos <= data.len()
{
    if pos >= data.len() {
        None
    } else if data[pos] == 13 || data[pos] == 10 {
        Some(pos)
    } else {
        scan_eol(data, pos + 1)
    }
}

/// The end of the whitespace-free token starting before `end`, scanning
/// from `pos`.
pub open spec fn tok_end(data: Seq<u8>, pos: int, end: int) -> int
    decreases end - pos,
        when 0 <= pos <= end
{
    if pos >= end {
        end
    } else if is_ws(data[pos]) {
        pos
    } else {
        tok_end(data, pos + 1, end)
    }
}

/// The whitespace-separated tokens of `data[pos..end]`, each as a bulk
/// string frame.
pub open spec fn tokens(data: Seq<u8>, pos: int, end: int) -> Seq<FrameModel>
    decreases end - pos,
        when 0 <= pos <= end <= data.len()
{
    if pos >= end {
        Seq::empty()
    } else if is_ws(data[pos]) {
        tokens(data, pos + 1, end)
    } else {
        let e0 = tok_end(data, pos + 1, end);
        let e = if e0 < pos + 1 {
            pos + 1
        } else if e0 > end {
            end
        } else {
            e0
        };
        seq![FrameModel::Bulk(bytes_chars(data.subrange(pos, e)))] + tokens(data, e, end)
    }
}

/// Decodes one client message from the head of the buffer: leading
/// whitespace is skipped; a RESP tag starts a RESP value; anything else is
/// an inline command line, complete once a CR or LF arrives, read as an
/// array of whitespace-separated bulk strings.
pub open spec fn dec_message(data: Seq<u8>) -> DecodeStep {
    let s0 = skip_ws(data, 0);
    let start = if s0 < 0 {
        0
    } else if s0 > data.len() {
        data.len() as int
    } else {
        s0
    };
    if start >= data.len() {
        DecodeStep::More
    } else {
        let tag = data[start];
        if tag == 43 || tag == 45 || tag == 58 || tag == 36 || tag == 42 {
            dec_at(data, start)
        } else {
            match scan_eol(data, start) {
                None => DecodeStep::More,
                Some(eol) => if start <= eol < data.len() {
                    DecodeStep::Done(FrameModel::Arr(tokens(data, start, eol)), eol + 1)
                } else {
                    DecodeStep::Bad
                },
            }
        }
    }
}

/// The decimal text of an integer: the characters of its wire rendering.
pub open spec fn dec_chars(i: int) -> Seq<char> {
    bytes_chars(int_rep(i))
}

/// Renders an integer as decimal text.
#[verifier::loop_isolation(false)]
pub fn decimal_string(i: i64) -> (r: String)
    ensures
        r@ == dec_chars(i as int),
{
    let mut digits: Vec<u8> = Vec::new();
    push_int_rep(i, &mut digits);
    let mut out = String::new();
    let mut k: usize = 0;
    while k < digits.len()
        invariant
            k <= digits@.len(),
            digits@ == int_rep(i as int),
            out@ =~= bytes_chars(digits@.take(k as int)),
        decreases digits@.len() - k,
    {
        let b = digits[k];
        out.push(b as char);
        proof {
            assert(out@ =~= bytes_chars(digits@.take(k + 1)));
        }
        k = k + 1;
    }
    proof {
        assert(digits@.take(digits@.len() as int) =~= digits@);
    }
    out
}

/// Relies on `String::push`: appends exactly the given character.
pub assume_specification[ String::push ](s: &mut String, c: char)
    ensures
        final(s)@ == old(s)@.push(c),
;

/// The models of a sequence of frames, elementwise.
pub open spec fn seq_models(s: Seq<RedisFrame>) -> Seq<FrameModel> {
    Seq::new(
        s.len(),
        |i: int|
            if 0 <= i < s.len() {
                s[i]@
            } else {
                FrameModel::Nil
            },
    )
}

/// The outcome of decoding one message from a buffer: a frame and the
/// number of bytes consumed, a need for more bytes, or a protocol error
/// with its reason.
pub enum Decoded {
    Frame(RedisFrame, usize),
    Incomplete,
    Corrupt(String),
}

/// The model of an exec decode outcome.
pub open spec fn decoded_model(r: &Decoded) -> DecodeStep {
    match r {
        Decoded::Frame(f, end) => DecodeStep::Done(f@, *end as int),
        Decoded::Incomplete => DecodeStep::More,
        Decoded::Corrupt(_) => DecodeStep::Bad,
    }
}

enum NumScan {
    NDone(i64, usize),
    NMore,
    NBad,
}

enum ElemsDecoded {
    Elems(Vec<RedisFrame>, usize),
    EIncomplete,
    ECorrupt(String),
}

spec fn elems_model(r: &ElemsDecoded) -> ElemsStep {
    match r {
        ElemsDecoded::Elems(fs, end) => ElemsStep::EDone(seq_models(fs@), *end as int),
        ElemsDecoded::EIncomplete => ElemsStep::EMore,
        ElemsDecoded::ECorrupt(_) => ElemsStep::EBad,
    }
}

fn is_ws_byte(b: u8) -> (r: bool)
    ensures
        r == is_ws(b),
{
    b == 9 || b == 10 || b == 11 || b == 12 || b == 13 || b == 32
}

/// The characters of `data[from..to]`, one per byte.
fn read_text(data: &[u8], from: usize, to: usize) -> (r: String)
    requires
        from <= to <= data@.len(),
    ensures
        r@ == bytes_chars(data@.subrange(from as int, to as int)),
{
    let mut s = String::new();
    let mut k = from;
    while k < to
        invariant
            from <= k <= to <= data@.len(),
            s@ =~= bytes_chars(data@.subrange(from as int, k as int)),
        decreases to - k,
    {
        let b = data[k];
        s.push(b as char);
        assert(s@ =~= bytes_chars(data@.subrange(from as int, k + 1 as int)));
        k = k + 1;
    }
    assert(s@ =~= bytes_chars(data@.subrange(from as int, to as int)));
    s
}

/// The first CR at or after `pos`.
fn find_cr(data: &[u8], pos: usize) -> (r: Option<usize>)
    requires
        pos <= data@.len(),
    ensures
        match r {
            Some(i) => scan_line(data@, pos as int) == Some(i as int) && pos <= i < data@.len(),
            None => scan_line(data@, pos as int) is None,
        },
{
    let mut i = pos;
    while i < data.len()
        invariant
            pos <= i <= data@.len(),
            scan_line(data@, pos as int) == scan_line(data@, i as int),
        decreases data@.len() - i,
    {
        if data[i] == 13 {
            return Some(i);
        }
        i = i + 1;
    }
    None
}

/// The first CR or LF at or after `pos`.
fn find_eol(data: &[u8], pos: usize) -> (r: Option<usize>)
    requires
        pos <= data@.len(),
    ensures
        match r {
            Some(i) => scan_eol(data@, pos as int) == Some(i as int) && pos <= i < data@.len(),
            None => scan_eol(data@, pos as int) is None,
        },
{
    let mut i = pos;
    while i < data.len()
        invariant
            pos <= i <= data@.len(),
            scan_eol(data@, pos as int) == scan_eol(data@, i as int),
        decreases data@.len() - i,
    {
        if data[i] == 13 || data[i] == 10 {
            return Some(i);
        }
        i = i + 1;
    }
    None
}

/// Reads a decimal run ending in CR.
fn scan_number(data: &[u8], pos: usize) -> (r: NumScan)
    requires
        pos <= data@.len(),
    ensures
        match r {
            NumScan::NDone(value, cr) => scan_int(data@, pos as int, 0) == (ScanOutcome::SDone {
                value: value as int,
                cr: cr as int,
            }) && pos <= cr < data@.len() && 0 <= value <= max_magnitude(),
            NumScan::NMore => scan_int(data@, pos as int, 0) is SMore,
            NumScan::NBad => scan_int(data@, pos as int, 0) is SBad,
        },
{
    let mut i = pos;
    let mut acc: u128 = 0;
    while i < data.len()
        invariant
            pos <= i <= data@.len(),
            0 <= acc <= max_magnitude(),
            scan_int(data@, pos as int, 0) == scan_int(data@, i as int, acc as int),
        decreases data@.len() - i,
    {
        let b = data[i];
        if b == 13 {
            return NumScan::NDone(acc as i64, i);
        }
        if b < 48 || b > 57 {
            return NumScan::NBad;
        }
        let next = acc * 10 + ((b - 48) as u128);
        if next > 0x7fff_ffff_ffff_ffffu128 {
            return NumScan::NBad;
        }
        acc = next;
        i = i + 1;
    }
    NumScan::NMore
}

/// Decodes one RESP value starting exactly at `pos`.
fn dec_value(data: &[u8], pos: usize) -> (r: Decoded)
    requires
        pos <= data@.len(),
    ensures
        decoded_model(&r) == dec_at(data@, pos as int),
        r matches Decoded::Frame(f, end) ==> pos < end <= data@.len(),
    decreases data@.len() - pos, 0nat, 0nat,
{
    let n = data.len();
    if pos >= n {
        return Decoded::Incomplete;
    }
    let tag = data[pos];
    if tag == 43 || tag == 45 {
        match find_cr(data, pos + 1) {
            None => Decoded::Incomplete,
            Some(cr) => {
                if cr + 1 >= n {
                    return Decoded::Incomplete;
                }
                if data[cr + 1] != 10 {
                    return Decoded::Corrupt(String::from_str("Expected CRLF after line"));
                }
                let text = read_text(data, pos + 1, cr);
                if tag == 43 {
                    Decoded::Frame(RedisFrame::SimpleString(text), cr + 2)
                } else {
                    Decoded::Frame(RedisFrame::Error(text), cr + 2)
                }
            },
        }
    } else if tag == 58 {
        let neg = pos + 1 < n && data[pos + 1] == 45;
        let dstart = if neg {
            pos + 2
        } else {
            pos + 1
        };
        match scan_number(data, dstart) {
            NumScan::NMore => Decoded::Incomplete,
            NumScan::NBad => Decoded::Corrupt(String::from_str("Expected digit in integer")),
            NumScan::NDone(value, cr) => {
                if cr + 1 >= n {
                    return Decoded::Incomplete;
                }
                if data[cr + 1] != 10 {
                    return Decoded::Corrupt(String::from_str("Expected CRLF after integer"));
                }
                let v = if neg {
                    -value
                } else {
                    value
                };
                Decoded::Frame(RedisFrame::Integer(v), cr + 2)
            },
        }
    } else if tag == 36 {
        let neg = pos + 1 < n && data[pos + 1] == 45;
        let dstart = if neg {
            pos + 2
        } else {
            pos + 1
        };
        match scan_number(data, dstart) {
            NumScan::NMore => Decoded::Incomplete,
            NumScan::NBad => Decoded::Corrupt(
                String::from_str("Expected digit in bulk string length"),
            ),
            NumScan::NDone(value, cr) => {
                if cr + 1 >= n {
                    return Decoded::Incomplete;
                }
                if data[cr + 1] != 10 {
                    return Decoded::Corrupt(
                        String::from_str("Expected CRLF after bulk string length"),
                    );
                }
                if neg {
                    return Decoded::Frame(RedisFrame::Null, cr + 2);
                }
                let start = cr + 2;
                let remaining = n - start;
                if (value as u128) + 2 > (remaining as u128) {
                    return Decoded::Incomplete;
                }
                let vend = start + (value as usize);
                if data[vend] != 13 || data[vend + 1] != 10 {
                    return Decoded::Corrupt(String::from_str("Expected CRLF after bulk string"));
                }
                let text = read_text(data, start, vend);
                Decoded::Frame(RedisFrame::BulkString(text), vend + 2)
            },
        }
    } else if tag == 42 {
        match scan_number(data, pos + 1) {
            NumScan::NMore => Decoded::Incomplete,
            NumScan::NBad => Decoded::Corrupt(String::from_str("Expected digit in array length")),
            NumScan::NDone(value, cr) => {
                if cr + 1 >= n {
                    return Decoded::Incomplete;
                }
                if data[cr + 1] != 10 {
                    return Decoded::Corrupt(String::from_str("Expected CRLF after array length"));
                }
                match dec_elements(data, cr + 2, value as u64) {
                    ElemsDecoded::EIncomplete => Decoded::Incomplete,
                    ElemsDecoded::ECorrupt(m) => Decoded::Corrupt(m),
                    ElemsDecoded::Elems(fs, end) => {
                        let f = RedisFrame::Array(fs);
                        proof {
                            assert(f@->Arr_0 =~= seq_models(f->Array_0@));
                        }
                        Decoded::Frame(f, end)
                    },
                }
            },
        }
    } else {
        Decoded::Corrupt(String::from_str("Unknown type byte"))
    }
}

/// Decodes `n` consecutive RESP values starting at `pos`.
fn dec_elements(data: &[u8], pos: usize, n: u64) -> (r: ElemsDecoded)
    requires
        pos <= data@.len(),
    ensures
        elems_model(&r) == dec_elems(data@, pos as int, n as int),
        r matches ElemsDecoded::Elems(fs, end) ==> pos <= end <= data@.len(),
    decreases data@.len() - pos, 1nat, n,
{
    if n == 0 {
        let fs: Vec<RedisFrame> = Vec::new();
        proof {
            assert(seq_models(fs@) =~= Seq::<FrameModel>::empty());
        }
        return ElemsDecoded::Elems(fs, pos);
    }
    match dec_value(data, pos) {
        Decoded::Incomplete => ElemsDecoded::EIncomplete,
        Decoded::Corrupt(m) => ElemsDecoded::ECorrupt(m),
        Decoded::Frame(f, end) => {
            match dec_elements(data, end, n - 1) {
                ElemsDecoded::EIncomplete => ElemsDecoded::EIncomplete,
                ElemsDecoded::ECorrupt(m) => ElemsDecoded::ECorrupt(m),
                ElemsDecoded::Elems(mut fs, fin) => {
                    let ghost old_fs = fs@;
                    fs.insert(0, f);
                    proof {
                        assert(seq_models(fs@) =~= seq![f@] + seq_models(old_fs));
                    }
                    ElemsDecoded::Elems(fs, fin)
                },
            }
        },
    }
}

/// Decodes one client message (RESP value or inline command line) from the
/// head of the buffer, returning the frame and the position just past it.
pub fn decode_message(data: &[u8]) -> (r: Decoded)
    ensures
        decoded_model(&r) == dec_message(data@),
        r matches Decoded::Frame(f, end) ==> 0 < end <= data@.len(),
{
    let n = data.len();
    let mut start: usize = 0;
    while start < n && is_ws_byte(data[start])
        invariant
            0 <= start <= n,
            n == data@.len(),
            skip_ws(data@, 0) == skip_ws(data@, start as int),
        decreases n - start,
    {
        start = start + 1;
    }
    assert(skip_ws(data@, 0) == start as int);
    if start >= n {
        return Decoded::Incomplete;
    }
    let tag = data[start];
    if tag == 43 || tag == 45 || tag == 58 || tag == 36 || tag == 42 {
        dec_value(data, start)
    } else {
        match find_eol(data, start) {
            None => Decoded::Incomplete,
            Some(eol) => {
                let mut toks: Vec<RedisFrame> = Vec::new();
                let mut p = start;
                proof {
                    assert(seq_models(toks@) =~= Seq::<FrameModel>::empty());
                    assert(tokens(data@, start as int, eol as int) == seq_models(toks@) + tokens(
                        data@,
                        p as int,
                        eol as int,
                    ));
                }
                while p < eol
                    invariant
                        start <= p <= eol < n,
                        n == data@.len(),
                        tokens(data@, start as int, eol as int) == seq_models(toks@) + tokens(
                            data@,
                            p as int,
                            eol as int,
                        ),
                    decreases eol - p,
                {
                    if is_ws_byte(data[p]) {
                        p = p + 1;
                    } else {
                        let e = scan_token(data, p + 1, eol);
                        let text = read_text(data, p, e);
                        let ghost old_toks = toks@;
                        toks.push(RedisFrame::BulkString(text));
                        proof {
                            assert(seq_models(toks@) =~= seq_models(old_toks) + seq![
                                FrameModel::Bulk(
                                    bytes_chars(data@.subrange(p as int, e as int)),
                                ),
                            ]);
                            assert((seq_models(old_toks) + seq![
                                FrameModel::Bulk(
                                    bytes_chars(data@.subrange(p as int, e as int)),
                                ),
                            ]) + tokens(data@, e as int, eol as int) =~= seq_models(old_toks) + (
                            seq![
                                FrameModel::Bulk(
                                    bytes_chars(data@.subrange(p as int, e as int)),
                                ),
                            ] + tokens(data@, e as int, eol as int)));
                        }
                        p = e;
                    }
                }
                proof {
                    assert(tokens(data@, p as int, eol as int) =~= Seq::<FrameModel>::empty());
                    assert(seq_models(toks@) + Seq::<FrameModel>::empty() =~= seq_models(toks@));
                }
                let f = RedisFrame::Array(toks);
                proof {
                    assert(f@->Arr_0 =~= seq_models(f->Array_0@));
                }
                Decoded::Frame(f, eol + 1)
            },
        }
    }
}

/// The end of the token running from just before `pos` to the first
/// whitespace byte below `end`.
fn scan_token(data: &[u8], pos: usize, end: usize) -> (e: usize)
    requires
        pos <= end <= data@.len(),
    ensures
        e == tok_end(data@, pos as int, end as int),
        pos <= e <= end,
{
    let mut i = pos;
    while i < end
        invariant
            pos <= i <= end <= data@.len(),
            tok_end(data@, pos as int, end as int) == tok_end(data@, i as int, end as int),
        decreases end - i,
    {
        if is_ws_byte(data[i]) {
            return i;
        }
        i = i + 1;
    }
    end
}

/// The value of a decimal digit string folded onto an accumulator, as the
/// scanner reads it left to right.
pub open spec fn digits_val_acc(ds: Seq<u8>, acc: int) -> int
    decreases ds.len(),
{
    if ds.len() == 0 {
        acc
    } else {
        digits_val_acc(ds.drop_first(), acc * 10 + (ds[0] - 48))
    }
}

/// Every byte of `ds` is a decimal digit.
pub open spec fn all_digits(ds: Seq<u8>) -> bool {
    forall|j: int| 0 <= j < ds.len() ==> is_digit(#[trigger] ds[j])
}

proof fn lemma_dva_lower(ds: Seq<u8>, acc: int)
    requires
        acc >= 0,
        all_digits(ds),
    ensures
        digits_val_acc(ds, acc) >= acc,
    decreases ds.len(),
{
    if ds.len() > 0 {
        assert(is_digit(ds[0]));
        let acc2 = acc * 10 + (ds[0] - 48);
        assert forall|j: int| 0 <= j < ds.drop_first().len() implies is_digit(
            #[trigger] ds.drop_first()[j],
        ) by {
            assert(ds.drop_first()[j] == ds[j + 1]);
        }
        lemma_dva_lower(ds.drop_first(), acc2);
    }
}

proof fn lemma_dva_snoc(ds: Seq<u8>, d: u8, acc: int)
    ensures
        digits_val_acc(ds.push(d), acc) == digits_val_acc(ds, acc) * 10 + (d - 48),
    decreases ds.len(),
{
    if ds.len() == 0 {
        assert(ds.push(d)[0] == d);
        assert(ds.push(d).drop_first() =~= Seq::<u8>::empty());
        assert(digits_val_acc(Seq::<u8>::empty(), acc * 10 + (d - 48)) == acc * 10 + (d - 48));
        assert(digits_val_acc(ds.push(d), acc) == digits_val_acc(
            Seq::<u8>::empty(),
            acc * 10 + (d - 48),
        ));
    } else {
        assert(ds.push(d)[0] == ds[0]);
        assert(ds.push(d).drop_first() =~= ds.drop_first().push(d));
        lemma_dva_snoc(ds.drop_first(), d, acc * 10 + (ds[0] - 48));
        assert(digits_val_acc(ds.push(d), acc) == digits_val_acc(
            ds.drop_first().push(d),
            acc * 10 + (ds[0] - 48),
        ));
    }
}

proof fn lemma_dec_rep_digits(n: nat)
    ensures
        all_digits(dec_rep(n)),
        dec_rep(n).len() >= 1,
    decreases n,
{
    if n < 10 {
    } else {
        lemma_dec_rep_digits(n / 10);
        let ds = dec_rep(n / 10);
        let d = (48 + n % 10) as u8;
        assert forall|j: int| 0 <= j < ds.push(d).len() implies is_digit(
            #[trigger] ds.push(d)[j],
        ) by {
            if j < ds.len() {
                assert(ds.push(d)[j] == ds[j]);
            } else {
                assert(ds.push(d)[j] == d);
            }
        }
    }
}

proof fn lemma_dec_rep_val(n: nat)
    ensures
        digits_val_acc(dec_rep(n), 0) == n,
    decreases n,
{
    if n < 10 {
        assert(dec_rep(n)[0] == (48 + n) as u8);
        assert(dec_rep(n).drop_first() =~= Seq::<u8>::empty());
        assert(digits_val_acc(Seq::<u8>::empty(), 0 * 10 + (((48 + n) as u8) - 48)) == n);
        assert(digits_val_acc(dec_rep(n), 0) == digits_val_acc(
            Seq::<u8>::empty(),
            0 * 10 + (((48 + n) as u8) - 48),
        ));
    } else {
        lemma_dec_rep_val(n / 10);
        lemma_dva_snoc(dec_rep(n / 10), (48 + n % 10) as u8, 0);
    }
}

/// A complete digit run ending in CR scans to its decimal value.
proof fn lemma_scan_digits(data: Seq<u8>, pos: int, k: int, acc: int)
    requires
        0 <= pos,
        0 <= k,
        pos + k < data.len(),
        forall|j: int| 0 <= j < k ==> is_digit(#[trigger] data[pos + j]),
        data[pos + k] == 13,
        0 <= acc,
        digits_val_acc(data.subrange(pos, pos + k), acc) <= max_magnitude(),
    ensures
        scan_int(data, pos, acc) == (ScanOutcome::SDone {
            value: digits_val_acc(data.subrange(pos, pos + k), acc),
            cr: pos + k,
        }),
    decreases k,
{
    if k == 0 {
        assert(data.subrange(pos, pos) =~= Seq::<u8>::empty());
    } else {
        let d = data[pos];
        assert(is_digit(d)) by {
            assert(data[pos + 0] == d);
        }
        let acc2 = acc * 10 + (d - 48);
        assert(data.subrange(pos, pos + k)[0] == d);
        assert(data.subrange(pos, pos + k).drop_first() =~= data.subrange(pos + 1, pos + k));
        assert(digits_val_acc(data.subrange(pos, pos + k), acc) == digits_val_acc(
            data.subrange(pos + 1, pos + k),
            acc2,
        ));
        assert forall|j: int| 0 <= j < data.subrange(pos + 1, pos + k).len() implies is_digit(
            #[trigger] data.subrange(pos + 1, pos + k)[j],
        ) by {
            assert(data.subrange(pos + 1, pos + k)[j] == data[pos + 1 + j]);
            assert(is_digit(data[pos + (j + 1)]));
        }
        lemma_dva_lower(data.subrange(pos + 1, pos + k), acc2);
        assert forall|j: int| 0 <= j < k - 1 implies is_digit(#[trigger] data[pos + 1 + j]) by {
            assert(is_digit(data[pos + (j + 1)]));
        }
        lemma_scan_digits(data, pos + 1, k - 1, acc2);
        assert(data.subrange(pos + 1, pos + 1 + (k - 1)) =~= data.subrange(pos + 1, pos + k));
    }
}

/// A digit run that reaches the end of the data scans to "more".
proof fn lemma_scan_digits_more(data: Seq<u8>, pos: int, acc: int)
    requires
        0 <= pos <= data.len(),
        forall|j: int| pos <= j < data.len() ==> is_digit(#[trigger] data[j]),
        0 <= acc,
        digits_val_acc(data.subrange(pos, data.len() as int), acc) <= max_magnitude(),
    ensures
        scan_int(data, pos, acc) is SMore,
    decreases data.len() - pos,
{
    if pos < data.len() {
        let d = data[pos];
        let acc2 = acc * 10 + (d - 48);
        assert(data.subrange(pos, data.len() as int)[0] == d);
        assert(data.subrange(pos, data.len() as int).drop_first() =~= data.subrange(
            pos + 1,
            data.len() as int,
        ));
        assert(digits_val_acc(data.subrange(pos, data.len() as int), acc) == digits_val_acc(
            data.subrange(pos + 1, data.len() as int),
            acc2,
        ));
        assert forall|j: int| 0 <= j < data.subrange(pos + 1, data.len() as int).len()
            implies is_digit(#[trigger] data.subrange(pos + 1, data.len() as int)[j]) by {
            assert(data.subrange(pos + 1, data.len() as int)[j] == data[pos + 1 + j]);
        }
        lemma_dva_lower(data.subrange(pos + 1, data.len() as int), acc2);
        lemma_scan_digits_more(data, pos + 1, acc2);
    }
}

/// The value of a strict prefix of a digit run is no more than the whole.
proof fn lemma_dva_prefix(ds: Seq<u8>, j: int)
    requires
        all_digits(ds),
        0 <= j <= ds.len(),
    ensures
        digits_val_acc(ds.take(j), 0) <= digits_val_acc(ds, 0),
    decreases ds.len() - j,
{
    if j < ds.len() {
        lemma_dva_prefix(ds, j + 1);
        lemma_dva_snoc(ds.take(j), ds[j], 0);
        assert(ds.take(j + 1) =~= ds.take(j).push(ds[j]));
        assert(is_digit(ds[j]));
        assert forall|i: int| 0 <= i < ds.take(j).len() implies is_digit(
            #[trigger] ds.take(j)[i],
        ) by {
            assert(ds.take(j)[i] == ds[i]);
        }
        lemma_dva_lower(ds.take(j), 0);
    } else {
        assert(ds.take(j) =~= ds);
    }
}

proof fn lemma_scan_line_found(data: Seq<u8>, pos: int, cr: int)
    requires
        0 <= pos <= cr < data.len(),
        forall|j: int| pos <= j < cr ==> data[j] != 13,
        data[cr] == 13,
    ensures
        scan_line(data, pos) == Some(cr),
    decreases cr - pos,
{
    if pos < cr {
        lemma_scan_line_found(data, pos + 1, cr);
    }
}

proof fn lemma_scan_line_none(data: Seq<u8>, pos: int)
    requires
        0 <= pos <= data.len(),
        forall|j: int| pos <= j < data.len() ==> data[j] != 13,
    ensures
        scan_line(data, pos) is None,
    decreases data.len() - pos,
{
    if pos < data.len() {
        lemma_scan_line_none(data, pos + 1);
    }
}

/// A character below 128 survives the round trip through its wire byte.
proof fn lemma_char_byte_id(c: char)
    requires
        (c as int) < 128,
    ensures
        ((c as u8) as char) == c,
        ((c as u8) as int) == c as int,
{
}

/// Reading the wire bytes of byte-per-character text back as characters
/// gives the text again.
proof fn lemma_text_roundtrip(s: Seq<char>)
    requires
        text_ok(s),
    ensures
        bytes_chars(chars_bytes(s)) == s,
{
    assert(bytes_chars(chars_bytes(s)) =~= s) by {
        assert forall|i: int| 0 <= i < s.len() implies bytes_chars(chars_bytes(s))[i] == s[i] by {
            assert((s[i] as int) < 128);
            assert(chars_bytes(s)[i] == (s[i] as u8));
            assert(bytes_chars(chars_bytes(s))[i] == ((chars_bytes(s)[i]) as char));
            lemma_char_byte_id(s[i]);
        }
    }
}

/// Every encoding is at least three bytes long.
pub proof fn lemma_encode_len(m: FrameModel)
    ensures
        encode(m).len() >= 3,
{
    match m {
        FrameModel::Simple(s) => {},
        FrameModel::Fault(s) => {},
        FrameModel::Int(i) => {
            if i < 0 {
                lemma_dec_rep_digits((-i) as nat);
            } else {
                lemma_dec_rep_digits(i as nat);
            }
        },
        FrameModel::Bulk(s) => {},
        FrameModel::Arr(xs) => {},
        FrameModel::Nil => {},
    }
}

/// Every encoding begins with its tag byte, which is not whitespace.
proof fn lemma_encode_first_byte(m: FrameModel)
    ensures
        encode(m).len() >= 1,
        encode(m)[0] == 43 || encode(m)[0] == 45 || encode(m)[0] == 58 || encode(m)[0] == 36
            || encode(m)[0] == 42,
        !is_ws(encode(m)[0]),
{
    match m {
        FrameModel::Simple(s) => {
            assert(encode(m)[0] == 43);
        },
        FrameModel::Fault(s) => {
            assert(encode(m)[0] == 45);
        },
        FrameModel::Int(i) => {
            assert(encode(m)[0] == 58);
        },
        FrameModel::Bulk(s) => {
            assert(encode(m)[0] == 36);
        },
        FrameModel::Arr(xs) => {
            assert(encode(m)[0] == 42);
        },
        FrameModel::Nil => {
            assert(encode(m)[0] == 36);
        },
    }
}

/// Wherever the encoding of a well-formed frame sits complete in a buffer,
/// decoding at its first byte returns exactly that frame and stops exactly
/// at its last byte.
pub proof fn lemma_decode_encode_at(data: Seq<u8>, pos: int, m: FrameModel)
    requires
        wf(m),
        0 <= pos,
        pos + encode(m).len() <= data.len(),
        data.subrange(pos, pos + encode(m).len() as int) == encode(m),
    ensures
        dec_at(data, pos) == DecodeStep::Done(m, pos + encode(m).len()),
    decreases m, 0int,
{
    let L = encode(m).len() as int;
    assert forall|j: int| 0 <= j < L implies #[trigger] data[pos + j] == encode(m)[j] by {
        assert(data.subrange(pos, pos + L)[j] == data[pos + j]);
    }
    match m {
        FrameModel::Simple(s) => {
            let cb = chars_bytes(s);
            let e = seq![43u8] + cb + crlf();
            assert(encode(m) == e);
            assert(L == 3 + s.len());
            assert(e[0] == 43);
            assert(data[pos + 0] == encode(m)[0]);
            assert(data[pos] == 43);
            assert forall|j: int| pos + 1 <= j < pos + 1 + s.len() implies data[j] != 13 by {
                let c = s[j - pos - 1];
                assert(encode(m)[j - pos] == cb[j - pos - 1]);
                assert(cb[j - pos - 1] == (c as u8));
                lemma_char_byte_id(c);
            }
            assert(data[pos + (1 + s.len())] == 13);
            assert(data[pos + (2 + s.len())] == 10);
            let cr = pos + 1 + s.len() as int;
            lemma_scan_line_found(data, pos + 1, cr);
            assert(data.subrange(pos + 1, cr) =~= cb) by {
                assert forall|j: int| 0 <= j < s.len() implies #[trigger] data.subrange(pos + 1, cr)[j] == cb[j] by {
                    assert(data[pos + (j + 1)] == encode(m)[j + 1]);
                }
            }
            assert(text_ok(s)) by {
                assert forall|i: int| 0 <= i < s.len() implies (#[trigger] s[i] as int) < 128 by {
                    assert((s[i] as int) < 128 && s[i] != '\r' && s[i] != '\n');
                }
            }
            lemma_text_roundtrip(s);
            assert(cr + 1 == pos + (2 + s.len()));
            assert(dec_at(data, pos) == DecodeStep::Done(FrameModel::Simple(s), pos + L));
        },
        FrameModel::Fault(s) => {
            let cb = chars_bytes(s);
            let e = seq![45u8] + cb + crlf();
            assert(encode(m) == e);
            assert(L == 3 + s.len());
            assert(e[0] == 45);
            assert(data[pos + 0] == encode(m)[0]);
            assert(data[pos] == 45);
            assert forall|j: int| pos + 1 <= j < pos + 1 + s.len() implies data[j] != 13 by {
                let c = s[j - pos - 1];
                assert(encode(m)[j - pos] == cb[j - pos - 1]);
                assert(cb[j - pos - 1] == (c as u8));
                lemma_char_byte_id(c);
            }
            assert(data[pos + (1 + s.len())] == 13);
            assert(data[pos + (2 + s.len())] == 10);
            let cr = pos + 1 + s.len() as int;
            lemma_scan_line_found(data, pos + 1, cr);
            assert(data.subrange(pos + 1, cr) =~= cb) by {
                assert forall|j: int| 0 <= j < s.len() implies #[trigger] data.subrange(pos + 1, cr)[j] == cb[j] by {
                    assert(data[pos + (j + 1)] == encode(m)[j + 1]);
                }
            }
            assert(text_ok(s)) by {
                assert forall|i: int| 0 <= i < s.len() implies (#[trigger] s[i] as int) < 128 by {
                    assert((s[i] as int) < 128 && s[i] != '\r' && s[i] != '\n');
                }
            }
            lemma_text_roundtrip(s);
            assert(cr + 1 == pos + (2 + s.len()));
            assert(dec_at(data, pos) == DecodeStep::Done(FrameModel::Fault(s), pos + L));
        },
        FrameModel::Int(i) => {
            let e = seq![58u8] + int_rep(i as int) + crlf();
            assert(encode(m) == e);
            assert(e[0] == 58);
            assert(data[pos + 0] == encode(m)[0]);
            assert(data[pos] == 58);
            if i < 0 {
                let mag = (-i) as nat;
                lemma_dec_rep_digits(mag);
                lemma_dec_rep_val(mag);
                let k = dec_rep(mag).len() as int;
                assert(int_rep(i as int) == seq![45u8] + dec_rep(mag));
                assert(L == 4 + k);
                assert(data[pos + 1] == 45);
                assert forall|j: int| 0 <= j < k implies is_digit(#[trigger] data[pos + 2 + j])
                    by {
                    assert(encode(m)[2 + j] == dec_rep(mag)[j]);
                    assert(data[pos + (2 + j)] == encode(m)[2 + j]);
                }
                assert(data[pos + (2 + k)] == 13);
                assert(data[pos + (3 + k)] == 10);
                assert(data.subrange(pos + 2, pos + 2 + k) =~= dec_rep(mag)) by {
                    assert forall|j: int| 0 <= j < k implies #[trigger] data.subrange(pos + 2, pos + 2 + k)[j] == dec_rep(mag)[j] by {
                        assert(data[pos + (2 + j)] == encode(m)[2 + j]);
                    }
                }
                lemma_scan_digits(data, pos + 2, k, 0);
                assert(scan_int(data, pos + 2, 0) == (ScanOutcome::SDone {
                    value: mag as int,
                    cr: pos + 2 + k,
                }));
                assert(dec_at(data, pos) == DecodeStep::Done(FrameModel::Int(i), pos + L));
            } else {
                let mag = i as nat;
                lemma_dec_rep_digits(mag);
                lemma_dec_rep_val(mag);
                let k = dec_rep(mag).len() as int;
                assert(int_rep(i as int) == dec_rep(mag));
                assert(L == 3 + k);
                assert(is_digit(dec_rep(mag)[0]));
                assert(data[pos + 1] == dec_rep(mag)[0]);
                assert(data[pos + 1] != 45);
                assert forall|j: int| 0 <= j < k implies is_digit(#[trigger] data[pos + 1 + j])
                    by {
                    assert(encode(m)[1 + j] == dec_rep(mag)[j]);
                    assert(data[pos + (1 + j)] == encode(m)[1 + j]);
                }
                assert(data[pos + (1 + k)] == 13);
                assert(data[pos + (2 + k)] == 10);
                assert(data.subrange(pos + 1, pos + 1 + k) =~= dec_rep(mag)) by {
                    assert forall|j: int| 0 <= j < k implies #[trigger] data.subrange(pos + 1, pos + 1 + k)[j] == dec_rep(mag)[j] by {
                        assert(data[pos + (1 + j)] == encode(m)[1 + j]);
                    }
                }
                lemma_scan_digits(data, pos + 1, k, 0);
                assert(scan_int(data, pos + 1, 0) == (ScanOutcome::SDone {
                    value: mag as int,
                    cr: pos + 1 + k,
                }));
                assert(dec_at(data, pos) == DecodeStep::Done(FrameModel::Int(i), pos + L));
            }
        },
        FrameModel::Bulk(s) => {
            let cb = chars_bytes(s);
            let n = s.len() as int;
            lemma_dec_rep_digits(n as nat);
            lemma_dec_rep_val(n as nat);
            let k = dec_rep(n as nat).len() as int;
            let e = seq![36u8] + dec_rep(n as nat) + crlf() + cb + crlf();
            assert(encode(m) == e);
            assert(L == 5 + k + n);
            assert(e[0] == 36);
            assert(data[pos + 0] == encode(m)[0]);
            assert(data[pos] == 36);
            assert(is_digit(dec_rep(n as nat)[0]));
            assert(data[pos + 1] == dec_rep(n as nat)[0]);
            assert(data[pos + 1] != 45);
            assert forall|j: int| 0 <= j < k implies is_digit(#[trigger] data[pos + 1 + j]) by {
                assert(encode(m)[1 + j] == dec_rep(n as nat)[j]);
                assert(data[pos + (1 + j)] == encode(m)[1 + j]);
            }
            assert(data[pos + (1 + k)] == 13);
            assert(data[pos + (2 + k)] == 10);
            assert(data.subrange(pos + 1, pos + 1 + k) =~= dec_rep(n as nat)) by {
                assert forall|j: int| 0 <= j < k implies #[trigger] data.subrange(pos + 1, pos + 1 + k)[j] == dec_rep(n as nat)[j] by {
                    assert(data[pos + (1 + j)] == encode(m)[1 + j]);
                }
            }
            lemma_scan_digits(data, pos + 1, k, 0);
            let cr = pos + 1 + k;
            assert(scan_int(data, pos + 1, 0) == (ScanOutcome::SDone { value: n, cr: cr }));
            assert(data[pos + (3 + k + n)] == 13);
            assert(data[pos + (4 + k + n)] == 10);
            assert(cr + 2 + n == pos + (3 + k + n));
            assert(data.subrange(cr + 2, cr + 2 + n) =~= cb) by {
                assert forall|j: int| 0 <= j < n implies #[trigger] data.subrange(cr + 2, cr + 2 + n)[j] == cb[j] by {
                    assert(encode(m)[3 + k + j] == cb[j]);
                    assert(data[pos + (3 + k + j)] == encode(m)[3 + k + j]);
                }
            }
            lemma_text_roundtrip(s);
            assert(dec_at(data, pos) == DecodeStep::Done(FrameModel::Bulk(s), pos + L));
        },
        FrameModel::Arr(xs) => {
            let es = encode_seq(xs);
            let nn = xs.len() as int;
            lemma_dec_rep_digits(nn as nat);
            lemma_dec_rep_val(nn as nat);
            let k = dec_rep(nn as nat).len() as int;
            let e = seq![42u8] + dec_rep(nn as nat) + crlf() + es;
            assert(encode(m) == e);
            assert(L == 3 + k + es.len());
            assert(e[0] == 42);
            assert(data[pos + 0] == encode(m)[0]);
            assert(data[pos] == 42);
            assert forall|j: int| 0 <= j < k implies is_digit(#[trigger] data[pos + 1 + j]) by {
                assert(encode(m)[1 + j] == dec_rep(nn as nat)[j]);
                assert(data[pos + (1 + j)] == encode(m)[1 + j]);
            }
            assert(data[pos + (1 + k)] == 13);
            assert(data[pos + (2 + k)] == 10);
            assert(data.subrange(pos + 1, pos + 1 + k) =~= dec_rep(nn as nat)) by {
                assert forall|j: int| 0 <= j < k implies #[trigger] data.subrange(pos + 1, pos + 1 + k)[j] == dec_rep(nn as nat)[j] by {
                    assert(data[pos + (1 + j)] == encode(m)[1 + j]);
                }
            }
            lemma_scan_digits(data, pos + 1, k, 0);
            let cr = pos + 1 + k;
            assert(scan_int(data, pos + 1, 0) == (ScanOutcome::SDone { value: nn, cr: cr }));
            assert(data.subrange(cr + 2, cr + 2 + es.len()) =~= es) by {
                assert forall|j: int| 0 <= j < es.len() implies #[trigger] data.subrange(cr + 2, cr + 2 + es.len())[j] == es[j] by {
                    assert(encode(m)[3 + k + j] == es[j]);
                    assert(data[pos + (3 + k + j)] == encode(m)[3 + k + j]);
                }
            }
            lemma_decode_encode_elems(data, cr + 2, xs);
            assert(dec_at(data, pos) == DecodeStep::Done(FrameModel::Arr(xs), pos + L));
        },
        FrameModel::Nil => {
            let e = seq![36u8, 45u8, 49u8, 13u8, 10u8];
            assert(encode(m) == e);
            assert(L == 5);
            assert(data[pos + 0] == encode(m)[0] && data[pos + 1] == encode(m)[1] && data[pos + 2]
                == encode(m)[2] && data[pos + 3] == encode(m)[3] && data[pos + 4] == encode(m)[4]);
            assert(data[pos] == 36);
            assert(data[pos + 1] == 45);
            assert(data[pos + 2] == 49);
            assert(data[pos + 3] == 13);
            assert(data[pos + 4] == 10);
            assert(scan_int(data, pos + 3, 1) == (ScanOutcome::SDone { value: 1, cr: pos + 3 }));
            assert(scan_int(data, pos + 2, 0) == (ScanOutcome::SDone { value: 1, cr: pos + 3 }));
            assert(dec_at(data, pos) == DecodeStep::Done(FrameModel::Nil, pos + 5));
        },
    }
}

/// Wherever the concatenated encodings of well-formed frames sit complete in
/// a buffer, decoding that many elements returns exactly those frames.
pub proof fn lemma_decode_encode_elems(data: Seq<u8>, pos: int, xs: Seq<FrameModel>)
    requires
        forall|i: int| 0 <= i < xs.len() ==> wf(#[trigger] xs[i]),
        0 <= pos,
        pos + encode_seq(xs).len() <= data.len(),
        data.subrange(pos, pos + encode_seq(xs).len() as int) == encode_seq(xs),
    ensures
        dec_elems(data, pos, xs.len() as int) == ElemsStep::EDone(xs, pos + encode_seq(xs).len()),
    decreases xs, 1int,
{
    if xs.len() == 0 {
        assert(encode_seq(xs).len() == 0);
        assert(Seq::<FrameModel>::empty() =~= xs);
    } else {
        let m0 = xs[0];
        let rest = xs.subrange(1, xs.len() as int);
        let e0 = encode(m0);
        let er = encode_seq(rest);
        let es = encode_seq(xs);
        assert(es == e0 + er);
        assert(wf(m0));
        assert forall|j: int| 0 <= j < es.len() implies data[pos + j] == es[j] by {
            assert(data.subrange(pos, pos + es.len())[j] == data[pos + j]);
        }
        assert(data.subrange(pos, pos + e0.len()) =~= e0) by {
            assert forall|j: int| 0 <= j < e0.len() implies #[trigger] data.subrange(pos, pos + e0.len())[j] == e0[j] by {
                assert(data[pos + j] == es[j]);
            }
        }
        lemma_decode_encode_at(data, pos, m0);
        lemma_encode_len(m0);
        let mid = pos + e0.len();
        assert(data.subrange(mid, mid + er.len()) =~= er) by {
            assert forall|j: int| 0 <= j < er.len() implies #[trigger] data.subrange(mid, mid + er.len())[j] == er[j] by {
                assert(data[pos + (e0.len() + j)] == es[e0.len() + j]);
                assert(es[e0.len() + j] == er[j]);
            }
        }
        assert forall|i: int| 0 <= i < rest.len() implies wf(#[trigger] rest[i]) by {
            assert(rest[i] == xs[i + 1]);
        }
        lemma_decode_encode_elems(data, mid, rest);
        assert(dec_elems(data, mid, rest.len() as int) == ElemsStep::EDone(rest, mid + er.len()));
        assert(rest.len() as int == xs.len() as int - 1);
        assert(seq![m0] + rest =~= xs);
        assert(dec_elems(data, pos, xs.len() as int) == ElemsStep::EDone(
            xs,
            pos + encode_seq(xs).len(),
        ));
    }
}

/// A buffer holding only a prefix of a decimal run scans to "more".
proof fn lemma_scan_digits_prefix_more(data: Seq<u8>, dstart: int, mag: nat)
    requires
        0 <= dstart <= data.len(),
        mag <= max_magnitude(),
        data.len() - dstart <= dec_rep(mag).len(),
        forall|j: int| 0 <= j < data.len() - dstart ==> #[trigger] data[dstart + j] == dec_rep(
            mag,
        )[j],
    ensures
        scan_int(data, dstart, 0) is SMore,
{
    lemma_dec_rep_digits(mag);
    lemma_dec_rep_val(mag);
    let avail = data.len() - dstart;
    assert forall|j: int| dstart <= j < data.len() implies is_digit(#[trigger] data[j]) by {
        assert(data[dstart + (j - dstart)] == dec_rep(mag)[j - dstart]);
    }
    lemma_dva_prefix(dec_rep(mag), avail);
    assert(data.subrange(dstart, data.len() as int) =~= dec_rep(mag).take(avail)) by {
        assert forall|j: int| 0 <= j < avail implies #[trigger] data.subrange(
            dstart,
            data.len() as int,
        )[j] == dec_rep(mag).take(avail)[j] by {
            assert(data[dstart + j] == dec_rep(mag)[j]);
        }
    }
    lemma_scan_digits_more(data, dstart, 0);
}

/// Decoding with only a strict prefix of a well-formed frame's encoding at
/// the end of the buffer asks for more bytes.
#[verifier::rlimit(100)]
pub proof fn lemma_decode_prefix_more(data: Seq<u8>, pos: int, m: FrameModel)
    requires
        wf(m),
        0 <= pos <= data.len(),
        data.len() - pos < encode(m).len(),
        data.subrange(pos, data.len() as int) == encode(m).take(data.len() - pos),
    ensures
        dec_at(data, pos) == DecodeStep::More,
    decreases m, 0int,
{
    let k = data.len() - pos;
    let L = encode(m).len() as int;
    assert forall|j: int| 0 <= j < k implies #[trigger] data[pos + j] == encode(m)[j] by {
        assert(data.subrange(pos, data.len() as int)[j] == data[pos + j]);
        assert(encode(m).take(k)[j] == encode(m)[j]);
    }
    if k == 0 {
        assert(dec_at(data, pos) == DecodeStep::More);
    } else {
        match m {
            FrameModel::Simple(s) => {
                let cb = chars_bytes(s);
                let e = seq![43u8] + cb + crlf();
                assert(encode(m) == e);
                assert(e[0] == 43);
                assert(data[pos + 0] == encode(m)[0]);
                assert(data[pos] == 43);
                if k <= 1 + s.len() {
                    assert forall|j: int| pos + 1 <= j < data.len() implies #[trigger] data[j]
                        != 13 by {
                        let c = s[j - pos - 1];
                        assert(data[pos + (j - pos)] == encode(m)[j - pos]);
                        assert(e[j - pos] == cb[j - pos - 1]);
                        assert(cb[j - pos - 1] == (c as u8));
                        lemma_char_byte_id(c);
                    }
                    lemma_scan_line_none(data, pos + 1);
                } else {
                    assert(k == 2 + s.len());
                    assert forall|j: int| pos + 1 <= j < data.len() - 1 implies #[trigger] data[j]
                        != 13 by {
                        let c = s[j - pos - 1];
                        assert(data[pos + (j - pos)] == encode(m)[j - pos]);
                        assert(e[j - pos] == cb[j - pos - 1]);
                        assert(cb[j - pos - 1] == (c as u8));
                        lemma_char_byte_id(c);
                    }
                    assert(data[pos + (1 + s.len())] == e[1 + s.len() as int]);
                    assert(data[data.len() as int - 1] == 13);
                    lemma_scan_line_found(data, pos + 1, data.len() as int - 1);
                }
            },
            FrameModel::Fault(s) => {
                let cb = chars_bytes(s);
                let e = seq![45u8] + cb + crlf();
                assert(encode(m) == e);
                assert(e[0] == 45);
                assert(data[pos + 0] == encode(m)[0]);
                assert(data[pos] == 45);
                if k <= 1 + s.len() {
                    assert forall|j: int| pos + 1 <= j < data.len() implies #[trigger] data[j]
                        != 13 by {
                        let c = s[j - pos - 1];
                        assert(data[pos + (j - pos)] == encode(m)[j - pos]);
                        assert(e[j - pos] == cb[j - pos - 1]);
                        assert(cb[j - pos - 1] == (c as u8));
                        lemma_char_byte_id(c);
                    }
                    lemma_scan_line_none(data, pos + 1);
                } else {
                    assert(k == 2 + s.len());
                    assert forall|j: int| pos + 1 <= j < data.len() - 1 implies #[trigger] data[j]
                        != 13 by {
                        let c = s[j - pos - 1];
                        assert(data[pos + (j - pos)] == encode(m)[j - pos]);
                        assert(e[j - pos] == cb[j - pos - 1]);
                        assert(cb[j - pos - 1] == (c as u8));
                        lemma_char_byte_id(c);
                    }
                    assert(data[pos + (1 + s.len())] == e[1 + s.len() as int]);
                    assert(data[data.len() as int - 1] == 13);
                    lemma_scan_line_found(data, pos + 1, data.len() as int - 1);
                }
            },
            FrameModel::Int(i) => {
                let e = seq![58u8] + int_rep(i as int) + crlf();
                assert(encode(m) == e);
                assert(e[0] == 58);
                assert(data[pos + 0] == encode(m)[0]);
                assert(data[pos] == 58);
                if i < 0 {
                    let mag = (-i) as nat;
                    lemma_dec_rep_digits(mag);
                    lemma_dec_rep_val(mag);
                    let kd = dec_rep(mag).len() as int;
                    assert(int_rep(i as int) == seq![45u8] + dec_rep(mag));
                    assert(L == 4 + kd);
                    if k == 1 {
                        assert(scan_int(data, pos + 1, 0) is SMore);
                    } else {
                        assert(data[pos + 1] == e[1]);
                        assert(data[pos + 1] == 45);
                        if k - 2 <= kd {
                            assert forall|j: int| 0 <= j < data.len() - (pos + 2)
                                implies #[trigger] data[pos + 2 + j] == dec_rep(mag)[j] by {
                                assert(data[pos + (2 + j)] == encode(m)[2 + j]);
                                assert(e[2 + j] == dec_rep(mag)[j]);
                            }
                            lemma_scan_digits_prefix_more(data, pos + 2, mag);
                        } else {
                            assert(k == 3 + kd);
                            assert forall|j: int| 0 <= j < kd implies is_digit(
                                #[trigger] data[pos + 2 + j],
                            ) by {
                                assert(data[pos + (2 + j)] == encode(m)[2 + j]);
                                assert(e[2 + j] == dec_rep(mag)[j]);
                            }
                            assert(data[pos + (2 + kd)] == e[2 + kd]);
                            assert(data[pos + 2 + kd] == 13);
                            assert(data.subrange(pos + 2, pos + 2 + kd) =~= dec_rep(mag)) by {
                                assert forall|j: int| 0 <= j < kd implies #[trigger] data.subrange(
                                    pos + 2,
                                    pos + 2 + kd,
                                )[j] == dec_rep(mag)[j] by {
                                    assert(data[pos + (2 + j)] == encode(m)[2 + j]);
                                    assert(e[2 + j] == dec_rep(mag)[j]);
                                }
                            }
                            lemma_scan_digits(data, pos + 2, kd, 0);
                            assert(pos + 2 + kd == data.len() - 1);
                        }
                    }
                } else {
                    let mag = i as nat;
                    lemma_dec_rep_digits(mag);
                    lemma_dec_rep_val(mag);
                    let kd = dec_rep(mag).len() as int;
                    assert(int_rep(i as int) == dec_rep(mag));
                    assert(L == 3 + kd);
                    if k == 1 {
                        assert(scan_int(data, pos + 1, 0) is SMore);
                    } else {
                        assert(data[pos + 1] == e[1]);
                        assert(is_digit(dec_rep(mag)[0]));
                        assert(data[pos + 1] != 45);
                        if k - 1 <= kd {
                            assert forall|j: int| 0 <= j < data.len() - (pos + 1)
                                implies #[trigger] data[pos + 1 + j] == dec_rep(mag)[j] by {
                                assert(data[pos + (1 + j)] == encode(m)[1 + j]);
                                assert(e[1 + j] == dec_rep(mag)[j]);
                            }
                            lemma_scan_digits_prefix_more(data, pos + 1, mag);
                        } else {
                            assert(k == 2 + kd);
                            assert forall|j: int| 0 <= j < kd implies is_digit(
                                #[trigger] data[pos + 1 + j],
                            ) by {
                                assert(data[pos + (1 + j)] == encode(m)[1 + j]);
                                assert(e[1 + j] == dec_rep(mag)[j]);
                            }
                            assert(data[pos + (1 + kd)] == e[1 + kd]);
                            assert(data[pos + 1 + kd] == 13);
                            assert(data.subrange(pos + 1, pos + 1 + kd) =~= dec_rep(mag)) by {
                                assert forall|j: int| 0 <= j < kd implies #[trigger] data.subrange(
                                    pos + 1,
                                    pos + 1 + kd,
                                )[j] == dec_rep(mag)[j] by {
                                    assert(data[pos + (1 + j)] == encode(m)[1 + j]);
                                    assert(e[1 + j] == dec_rep(mag)[j]);
                                }
                            }
                            lemma_scan_digits(data, pos + 1, kd, 0);
                            assert(pos + 1 + kd == data.len() - 1);
                        }
                    }
                }
            },
            FrameModel::Bulk(s) => {
                let cb = chars_bytes(s);
                let n = s.len() as int;
                lemma_dec_rep_digits(n as nat);
                lemma_dec_rep_val(n as nat);
                let kd = dec_rep(n as nat).len() as int;
                let e = seq![36u8] + dec_rep(n as nat) + crlf() + cb + crlf();
                assert(encode(m) == e);
                assert(L == 5 + kd + n);
                assert(e[0] == 36);
                assert(data[pos + 0] == encode(m)[0]);
                assert(data[pos] == 36);
                if k == 1 {
                    assert(scan_int(data, pos + 1, 0) is SMore);
                } else {
                    assert(data[pos + 1] == e[1]);
                    assert(is_digit(dec_rep(n as nat)[0]));
                    assert(data[pos + 1] != 45);
                    if k - 1 <= kd {
                        assert forall|j: int| 0 <= j < data.len() - (pos + 1) implies #[trigger]
                        data[pos + 1 + j] == dec_rep(n as nat)[j] by {
                            assert(data[pos + (1 + j)] == encode(m)[1 + j]);
                            assert(e[1 + j] == dec_rep(n as nat)[j]);
                        }
                        lemma_scan_digits_prefix_more(data, pos + 1, n as nat);
                    } else {
                        assert forall|j: int| 0 <= j < kd implies is_digit(
                            #[trigger] data[pos + 1 + j],
                        ) by {
                            assert(data[pos + (1 + j)] == encode(m)[1 + j]);
                            assert(e[1 + j] == dec_rep(n as nat)[j]);
                        }
                        assert(data[pos + (1 + kd)] == e[1 + kd]);
                        assert(data[pos + 1 + kd] == 13);
                        assert(data.subrange(pos + 1, pos + 1 + kd) =~= dec_rep(n as nat)) by {
                            assert forall|j: int| 0 <= j < kd implies #[trigger] data.subrange(
                                pos + 1,
                                pos + 1 + kd,
                            )[j] == dec_rep(n as nat)[j] by {
                                assert(data[pos + (1 + j)] == encode(m)[1 + j]);
                                assert(e[1 + j] == dec_rep(n as nat)[j]);
                            }
                        }
                        lemma_scan_digits(data, pos + 1, kd, 0);
                        let cr = pos + 1 + kd;
                        if k == 2 + kd {
                            assert(cr + 1 >= data.len());
                        } else {
                            assert(data[pos + (2 + kd)] == e[2 + kd]);
                            assert(data[cr + 1] == 10);
                            assert(cr + 2 + n + 2 > data.len());
                        }
                    }
                }
            },
            FrameModel::Arr(xs) => {
                let es = encode_seq(xs);
                let nn = xs.len() as int;
                lemma_dec_rep_digits(nn as nat);
                lemma_dec_rep_val(nn as nat);
                let kd = dec_rep(nn as nat).len() as int;
                let e = seq![42u8] + dec_rep(nn as nat) + crlf() + es;
                assert(encode(m) == e);
                assert(L == 3 + kd + es.len());
                assert(e[0] == 42);
                assert(data[pos + 0] == encode(m)[0]);
                assert(data[pos] == 42);
                if k == 1 {
                    assert(scan_int(data, pos + 1, 0) is SMore);
                } else {
                    assert(data[pos + 1] == e[1]);
                    assert(is_digit(dec_rep(nn as nat)[0]));
                    if k - 1 <= kd {
                        assert forall|j: int| 0 <= j < data.len() - (pos + 1) implies #[trigger]
                        data[pos + 1 + j] == dec_rep(nn as nat)[j] by {
                            assert(data[pos + (1 + j)] == encode(m)[1 + j]);
                            assert(e[1 + j] == dec_rep(nn as nat)[j]);
                        }
                        lemma_scan_digits_prefix_more(data, pos + 1, nn as nat);
                    } else {
                        assert forall|j: int| 0 <= j < kd implies is_digit(
                            #[trigger] data[pos + 1 + j],
                        ) by {
                            assert(data[pos + (1 + j)] == encode(m)[1 + j]);
                            assert(e[1 + j] == dec_rep(nn as nat)[j]);
                        }
                        assert(data[pos + (1 + kd)] == e[1 + kd]);
                        assert(data[pos + 1 + kd] == 13);
                        assert(data.subrange(pos + 1, pos + 1 + kd) =~= dec_rep(nn as nat)) by {
                            assert forall|j: int| 0 <= j < kd implies #[trigger] data.subrange(
                                pos + 1,
                                pos + 1 + kd,
                            )[j] == dec_rep(nn as nat)[j] by {
                                assert(data[pos + (1 + j)] == encode(m)[1 + j]);
                                assert(e[1 + j] == dec_rep(nn as nat)[j]);
                            }
                        }
                        lemma_scan_digits(data, pos + 1, kd, 0);
                        let cr = pos + 1 + kd;
                        if k == 2 + kd {
                            assert(cr + 1 >= data.len());
                        } else {
                            assert(data[pos + (2 + kd)] == e[2 + kd]);
                            assert(data[cr + 1] == 10);
                            assert forall|j: int| 0 <= j < data.len() - (cr + 2)
                                implies #[trigger] data[cr + 2 + j] == es[j] by {
                                assert(data[pos + (3 + kd + j)] == encode(m)[3 + kd + j]);
                                assert(e[3 + kd + j] == es[j]);
                            }
                            assert(data.subrange(cr + 2, data.len() as int) =~= encode_seq(
                                xs,
                            ).take(data.len() - (cr + 2))) by {
                                assert forall|j: int| 0 <= j < data.len() - (cr + 2)
                                    implies #[trigger] data.subrange(cr + 2, data.len() as int)[j]
                                    == encode_seq(xs).take(data.len() - (cr + 2))[j] by {
                                    assert(data[cr + 2 + j] == es[j]);
                                }
                            }
                            lemma_elems_prefix_more(data, cr + 2, xs);
                        }
                    }
                }
            },
            FrameModel::Nil => {
                let e = seq![36u8, 45u8, 49u8, 13u8, 10u8];
                assert(encode(m) == e);
                assert(L == 5);
                assert(data[pos + 0] == encode(m)[0]);
                assert(data[pos] == 36);
                if k == 1 {
                    assert(scan_int(data, pos + 1, 0) is SMore);
                } else {
                    assert(data[pos + 1] == encode(m)[1]);
                    assert(data[pos + 1] == 45);
                    if k == 2 {
                        assert(scan_int(data, pos + 2, 0) is SMore);
                    } else {
                        assert(data[pos + 2] == encode(m)[2]);
                        assert(data[pos + 2] == 49);
                        if k == 3 {
                            assert(scan_int(data, pos + 3, 1) is SMore);
                            assert(scan_int(data, pos + 2, 0) is SMore);
                        } else {
                            assert(k == 4);
                            assert(data[pos + 3] == encode(m)[3]);
                            assert(data[pos + 3] == 13);
                            assert(scan_int(data, pos + 3, 1) == (ScanOutcome::SDone {
                                value: 1,
                                cr: pos + 3,
                            }));
                            assert(scan_int(data, pos + 2, 0) == (ScanOutcome::SDone {
                                value: 1,
                                cr: pos + 3,
                            }));
                            assert(pos + 3 + 1 >= data.len());
                        }
                    }
                }
            },
        }
    }
}

/// Decoding `n` elements with only a strict prefix of their concatenated
/// encodings at the end of the buffer asks for more bytes.
pub proof fn lemma_elems_prefix_more(data: Seq<u8>, pos: int, xs: Seq<FrameModel>)
    requires
        forall|i: int| 0 <= i < xs.len() ==> wf(#[trigger] xs[i]),
        0 <= pos <= data.len(),
        data.len() - pos < encode_seq(xs).len(),
        data.subrange(pos, data.len() as int) == encode_seq(xs).take(data.len() - pos),
    ensures
        dec_elems(data, pos, xs.len() as int) == ElemsStep::EMore,
    decreases xs, 1int,
{
    let avail = data.len() - pos;
    let es = encode_seq(xs);
    assert(xs.len() > 0);
    let m0 = xs[0];
    let rest = xs.subrange(1, xs.len() as int);
    let e0 = encode(m0);
    let er = encode_seq(rest);
    assert(es == e0 + er);
    assert(wf(m0));
    assert forall|j: int| 0 <= j < avail implies #[trigger] data[pos + j] == es[j] by {
        assert(data.subrange(pos, data.len() as int)[j] == data[pos + j]);
        assert(es.take(avail)[j] == es[j]);
    }
    if avail < e0.len() {
        assert(data.subrange(pos, data.len() as int) =~= e0.take(avail)) by {
            assert forall|j: int| 0 <= j < avail implies #[trigger] data.subrange(
                pos,
                data.len() as int,
            )[j] == e0.take(avail)[j] by {
                assert(data[pos + j] == es[j]);
                assert(es[j] == e0[j]);
            }
        }
        lemma_decode_prefix_more(data, pos, m0);
    } else {
        assert(data.subrange(pos, pos + e0.len()) =~= e0) by {
            assert forall|j: int| 0 <= j < e0.len() implies #[trigger] data.subrange(
                pos,
                pos + e0.len(),
            )[j] == e0[j] by {
                assert(data[pos + j] == es[j]);
            }
        }
        lemma_decode_encode_at(data, pos, m0);
        lemma_encode_len(m0);
        let mid = pos + e0.len();
        assert(data.subrange(mid, data.len() as int) =~= er.take(data.len() - mid)) by {
            assert forall|j: int| 0 <= j < data.len() - mid implies #[trigger] data.subrange(
                mid,
                data.len() as int,
            )[j] == er.take(data.len() - mid)[j] by {
                assert(data[pos + (e0.len() + j)] == es[e0.len() + j]);
                assert(es[e0.len() + j] == er[j]);
            }
        }
        assert forall|i: int| 0 <= i < rest.len() implies wf(#[trigger] rest[i]) by {
            assert(rest[i] == xs[i + 1]);
        }
        lemma_elems_prefix_more(data, mid, rest);
        assert(rest.len() as int == xs.len() as int - 1);
    }
}

/// Incremental decode: with only a strict prefix of a well-formed frame's
/// encoding in the buffer, the decoder asks for more bytes.
pub proof fn lemma_codec_incremental(m: FrameModel, cut: int)
    requires
        wf(m),
        0 <= cut < encode(m).len(),
    ensures
        dec_message(encode(m).take(cut)) == DecodeStep::More,
{
    let data = encode(m).take(cut);
    if cut == 0 {
        assert(data.len() == 0);
        assert(skip_ws(data, 0) == 0);
    } else {
        lemma_encode_first_byte(m);
        assert(data[0] == encode(m)[0]);
        assert(skip_ws(data, 0) == 0);
        assert(data.subrange(0, data.len() as int) =~= encode(m).take(data.len() as int));
        lemma_decode_prefix_more(data, 0, m);
    }
}

/// Codec round trip: a well-formed frame decodes from its own encoding,
/// whatever follows it in the buffer, consuming exactly the encoding.
pub proof fn lemma_codec_round_trip(m: FrameModel, rest: Seq<u8>)
    requires
        wf(m),
    ensures
        dec_message(encode(m) + rest) == DecodeStep::Done(m, encode(m).len() as int),
{
    let data = encode(m) + rest;
    lemma_encode_first_byte(m);
    assert(data[0] == encode(m)[0]);
    assert(skip_ws(data, 0) == 0);
    assert(data.subrange(0, encode(m).len() as int) =~= encode(m));
    lemma_decode_encode_at(data, 0, m);
}

/// Appends the wire bytes of the characters of `s` to `out`.
fn push_chars(s: &str, out: &mut Vec<u8>)
    ensures
        final(out)@ == old(out)@ + chars_bytes(s@),
{
    let ghost out0 = old(out)@;
    let n = s.unicode_len();
    let mut i: usize = 0;
    while i < n
        invariant
            i <= n,
            n == s@.len(),
            out@ =~= out0 + chars_bytes(s@.take(i as int)),
        decreases n - i,
    {
        let c = s.get_char(i);
        out.push(c as u8);
        assert(out@ =~= out0 + chars_bytes(s@.take(i + 1)));
        i = i + 1;
    }
    assert(s@.take(n as int) =~= s@);
}

/// Appends the decimal rendering of `i` to `out`.
fn push_int_rep(i: i64, out: &mut Vec<u8>)
    ensures
        final(out)@ == old(out)@ + int_rep(i as int),
{
    if i < 0 {
        out.push(45);
        let magnitude: u64 = ((-(i + 1)) as u64) + 1;
        push_dec_digits(magnitude, out);
    } else {
        push_dec_digits(i as u64, out);
    }
}

/// The text of an error, as the error frame sent to a client carries it
/// after the `ERR ` prefix.
pub open spec fn message_of(e: RedisError) -> Seq<char> {
    match e {
        RedisError::Protocol(m) => "Protocol error: "@ + m@,
        RedisError::UnknownCommand(c) => "unknown command '"@ + c@ + "'"@,
        RedisError::WrongArity(c) => "wrong number of arguments for '"@ + c@ + "'"@,
        RedisError::NotFound(m) => "Not found: "@ + m@,
        RedisError::Internal(m) => "Internal: "@ + m@,
    }
}

impl RedisError {
    /// Renders the error text that an error frame carries after `ERR `.
    pub fn message(&self) -> (r: String)
        ensures
            r@ == message_of(*self),
    {
        match self {
            RedisError::Protocol(m) => String::from_str("Protocol error: ").concat(m.as_str()),
            RedisError::UnknownCommand(c) => String::from_str("unknown command '").concat(
                c.as_str(),
            ).concat("'"),
            RedisError::WrongArity(c) => String::from_str("wrong number of arguments for '")
                .concat(c.as_str()).concat("'"),
            RedisError::NotFound(m) => String::from_str("Not found: ").concat(m.as_str()),
            RedisError::Internal(m) => String::from_str("Internal: ").concat(m.as_str()),
        }
    }
}

impl RedisFrame {
    /// Parses one complete message from the head of `data`: the frame a
    /// client sent first, however much of `data` follows it. Anything short
    /// of one complete message is a protocol error, as is malformed RESP.
    pub fn parse(data: &[u8]) -> (r: Result<RedisFrame, RedisError>)
        ensures
            match r {
                Ok(f) => dec_message(data@) matches DecodeStep::Done(m, c) && m == f@,
                Err(e) => !(dec_message(data@) is Done) && e is Protocol,
            },
    {
        match decode_message(data) {
            Decoded::Frame(f, _) => Ok(f),
            Decoded::Incomplete => Err(
                RedisError::Protocol(String::from_str("Unexpected end of data")),
            ),
            Decoded::Corrupt(m) => Err(RedisError::Protocol(m)),
        }
    }

    /// Returns the text if this is a simple or bulk string frame.
    pub fn as_string(&self) -> (r: Option<&str>)
        ensures
            match self@ {
                FrameModel::Simple(s) => r matches Some(t) && t@ == s,
                FrameModel::Bulk(s) => r matches Some(t) && t@ == s,
                _ => r is None,
            },
    {
        match self {
            RedisFrame::SimpleString(s) => Some(s.as_str()),
            RedisFrame::BulkString(s) => Some(s.as_str()),
            _ => None,
        }
    }

    /// Encodes the frame in the RESP wire form.
    #[verifier::loop_isolation(false)]
    pub fn to_bytes(&self) -> (r: Vec<u8>)
        ensures
            r@ == encode(self@),
        decreases self,
    {
        let mut out: Vec<u8> = Vec::new();
        match self {
            RedisFrame::SimpleString(s) => {
                out.push(43);
                push_chars(s.as_str(), &mut out);
                out.push(13);
                out.push(10);
                assert(out@ =~= encode(self@));
            },
            RedisFrame::Error(s) => {
                out.push(45);
                push_chars(s.as_str(), &mut out);
                out.push(13);
                out.push(10);
                assert(out@ =~= encode(self@));
            },
            RedisFrame::Integer(i) => {
                out.push(58);
                push_int_rep(*i, &mut out);
                out.push(13);
                out.push(10);
                assert(out@ =~= encode(self@));
            },
            RedisFrame::BulkString(s) => {
                out.push(36);
                let n = s.as_str().unicode_len();
                push_dec_digits(n as u64, &mut out);
                out.push(13);
                out.push(10);
                push_chars(s.as_str(), &mut out);
                out.push(13);
                out.push(10);
                assert(out@ =~= encode(self@));
            },
            RedisFrame::Array(xs) => {
                out.push(42);
                push_dec_digits(xs.len() as u64, &mut out);
                out.push(13);
                out.push(10);
                let ghost header = out@;
                let ghost models = self@->Arr_0;
                let mut i: usize = 0;
                while i < xs.len()
                    invariant
                        i <= xs.len(),
                        models == self@->Arr_0,
                        models.len() == xs.len(),
                        forall|k: int| 0 <= k < xs.len() ==> models[k] == #[trigger] xs@[k]@,
                        out@ == header + encode_seq(models.take(i as int)),
                    decreases xs.len() - i,
                {
                    let mut piece = xs[i].to_bytes();
                    out.append(&mut piece);
                    proof {
                        lemma_encode_seq_take_succ(models, i as int);
                    }
                    i = i + 1;
                }
                proof {
                    assert(models.take(xs.len() as int) =~= models);
                    assert(out@ =~= encode(self@));
                }
            },
            RedisFrame::Null => {
                out.push(36);
                out.push(45);
                out.push(49);
                out.push(13);
                out.push(10);
                assert(out@ =~= encode(self@));
            },
        }
        out
    }
}

} // verus!
