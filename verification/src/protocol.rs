//! Wire protocol for client-server communication.
//!
//! Every message is length-prefixed and has a type tag:
//!   [length: u32 LE (4 bytes)] [type: u8 (1 byte)] [payload: length-1 bytes]
//!
//! Client -> Server:
//!   0x01 Query   — payload is UTF-8 SQL
//!
//! Server -> Client:
//!   0x02 Okay    — payload is UTF-8 success message
//!   0x03 Error   — payload is UTF-8 error text
//!   0x04 Rows    — payload is serialized results:
//!     [num_cols: u32][col_name: u32 len + bytes]...
//!     [num_rows: u32][for each row: [cell: u32 len + bytes]...]
use vstd::prelude::*;
use vstd::bytes::*;
use vstd::utf8::*;
use crate::bytes::{copy_range, lemma_le_roundtrip, lemma_split, push_all, push_u32, read_u32, u32_at};
use crate::text::{digit_char, lemma_text_of_encoding, text_from_bytes, text_of_bytes};

verus! {

pub const MSG_QUERY: u8 = 0x01;
pub const MSG_OK: u8 = 0x02;
pub const MSG_ERROR: u8 = 0x03;
pub const MSG_ROWS: u8 = 0x04;

/// A message sent over the wire.
#[derive(Debug, Clone, PartialEq)]
pub enum Message {
    Query(String),
    Okay(String),
    Error(String),
    Rows { headers: Vec<String>, rows: Vec<Vec<String>> },
}

/// The model of a message: its texts as character sequences.
pub enum MessageModel {
    Query(Seq<char>),
    Okay(Seq<char>),
    Error(Seq<char>),
    Rows { headers: Seq<Seq<char>>, rows: Seq<Seq<Seq<char>>> },
}

/// The texts of a list of strings.
pub open spec fn strings_model(v: Seq<String>) -> Seq<Seq<char>> {
    v.map_values(|s: String| s@)
}

/// The texts of a list of rows of strings.
pub open spec fn table_model(v: Seq<Vec<String>>) -> Seq<Seq<Seq<char>>> {
    v.map_values(|r: Vec<String>| strings_model(r@))
}

impl View for Message {
    type V = MessageModel;

    open spec fn view(&self) -> MessageModel {
        match self {
            Message::Query(s) => MessageModel::Query(s@),
            Message::Okay(s) => MessageModel::Okay(s@),
            Message::Error(s) => MessageModel::Error(s@),
            Message::Rows { headers, rows } => MessageModel::Rows {
                headers: strings_model(headers@),
                rows: table_model(rows@),
            },
        }
    }
}

/// Why reading a message failed.
#[derive(Debug, Clone, PartialEq)]
pub enum ProtocolError {
    /// The input ended before the frame did.
    UnexpectedEof,
    /// The frame is malformed (zero length, unknown type, bad rows payload).
    InvalidData(String),
}

// ---------------------------------------------------------------------------
// Encoding
// ---------------------------------------------------------------------------

/// A length-prefixed string: u32 byte length, then the UTF-8 bytes.
pub open spec fn str_bytes(s: Seq<char>) -> Seq<u8> {
    spec_u32_to_le_bytes(encode_utf8(s).len() as u32) + encode_utf8(s)
}

/// Length-prefixed strings one after another.
pub open spec fn strs_bytes(v: Seq<Seq<char>>) -> Seq<u8>
    decreases v.len(),
{
    if v.len() == 0 {
        Seq::empty()
    } else {
        strs_bytes(v.drop_last()) + str_bytes(v.last())
    }
}

/// The cells of each row, row after row.
pub open spec fn table_bytes(rows: Seq<Seq<Seq<char>>>) -> Seq<u8>
    decreases rows.len(),
{
    if rows.len() == 0 {
        Seq::empty()
    } else {
        table_bytes(rows.drop_last()) + strs_bytes(rows.last())
    }
}

/// The payload of a Rows message.
pub open spec fn rows_payload(headers: Seq<Seq<char>>, rows: Seq<Seq<Seq<char>>>) -> Seq<u8> {
    spec_u32_to_le_bytes(headers.len() as u32) + strs_bytes(headers) + spec_u32_to_le_bytes(
        rows.len() as u32,
    ) + table_bytes(rows)
}

/// The type tag of a message.
pub open spec fn msg_type(m: MessageModel) -> u8 {
    match m {
        MessageModel::Query(_) => MSG_QUERY,
        MessageModel::Okay(_) => MSG_OK,
        MessageModel::Error(_) => MSG_ERROR,
        MessageModel::Rows { .. } => MSG_ROWS,
    }
}

/// The payload of a message.
pub open spec fn payload(m: MessageModel) -> Seq<u8> {
    match m {
        MessageModel::Query(s) => encode_utf8(s),
        MessageModel::Okay(s) => encode_utf8(s),
        MessageModel::Error(s) => encode_utf8(s),
        MessageModel::Rows { headers, rows } => rows_payload(headers, rows),
    }
}

/// The bytes of one framed message.
pub open spec fn frame(m: MessageModel) -> Seq<u8> {
    spec_u32_to_le_bytes(((payload(m).len() + 1) % 0x1_0000_0000) as u32) + seq![msg_type(m)]
        + payload(m)
}

fn push_str_bytes(out: &mut Vec<u8>, s: &String)
    ensures
        final(out)@ == old(out)@ + str_bytes(s@),
{
    let b = s.as_str().as_bytes();
    push_u32(out, #[verifier::truncate] (b.len() as u32));
    push_all(out, b);
    assert(final(out)@ =~= old(out)@ + str_bytes(s@)) by {
    }
}

fn push_strs(out: &mut Vec<u8>, v: &Vec<String>)
    ensures
        final(out)@ == old(out)@ + strs_bytes(strings_model(v@)),
{
    let ghost start = out@;
    let mut i: usize = 0;
    while i < v.len()
        invariant
            i <= v@.len(),
            out@ == start + strs_bytes(strings_model(v@).take(i as int)),
        decreases v@.len() - i,
    {
        push_str_bytes(out, &v[i]);
        proof {
            let t = strings_model(v@).take(i + 1);
            assert(t.drop_last() =~= strings_model(v@).take(i as int));
            assert(t.last() == v@[i as int]@);
        }
        i = i + 1;
    }
    assert(strings_model(v@).take(v@.len() as int) =~= strings_model(v@));
}

/// Encode a Rows payload.
fn encode_rows(headers: &Vec<String>, rows: &Vec<Vec<String>>) -> (out: Vec<u8>)
    ensures
        out@ == rows_payload(strings_model(headers@), table_model(rows@)),
{
    let mut out: Vec<u8> = Vec::new();
    push_u32(&mut out, #[verifier::truncate] (headers.len() as u32));
    push_strs(&mut out, headers);
    push_u32(&mut out, #[verifier::truncate] (rows.len() as u32));
    let ghost start = out@;
    let mut i: usize = 0;
    while i < rows.len()
        invariant
            i <= rows@.len(),
            out@ == start + table_bytes(table_model(rows@).take(i as int)),
        decreases rows@.len() - i,
    {
        push_strs(&mut out, &rows[i]);
        proof {
            let t = table_model(rows@).take(i + 1);
            assert(t.drop_last() =~= table_model(rows@).take(i as int));
            assert(t.last() == strings_model(rows@[i as int]@));
        }
        i = i + 1;
    }
    assert(table_model(rows@).take(rows@.len() as int) =~= table_model(rows@));
    assert(out@ =~= rows_payload(strings_model(headers@), table_model(rows@)));
    out
}

/// Write one framed message to a byte buffer.
pub fn write_message(w: &mut Vec<u8>, msg: &Message) -> (r: Result<(), ProtocolError>)
    ensures
        r is Ok,
        final(w)@ == old(w)@ + frame(msg@),
{
    let (msg_type, payload): (u8, Vec<u8>) = match msg {
        Message::Query(s) => (MSG_QUERY, vstd::slice::slice_to_vec(s.as_str().as_bytes())),
        Message::Okay(s) => (MSG_OK, vstd::slice::slice_to_vec(s.as_str().as_bytes())),
        Message::Error(s) => (MSG_ERROR, vstd::slice::slice_to_vec(s.as_str().as_bytes())),
        Message::Rows { headers, rows } => (MSG_ROWS, encode_rows(headers, rows)),
    };
    let low: u64 = payload.len() as u64 % 0x1_0000_0000;
    let len = ((low + 1) % 0x1_0000_0000) as u32;
    proof {
        vstd::arithmetic::div_mod::lemma_add_mod_noop(payload@.len() as int, 1, 0x1_0000_0000);
    }
    push_u32(w, len);
    w.push(msg_type);
    push_all(w, payload.as_slice());
    assert(final(w)@ =~= old(w)@ + frame(msg@));
    Ok(())
}

} // verus!

verus! {

// ---------------------------------------------------------------------------
// Decoding
// ---------------------------------------------------------------------------

/// The model of a protocol error.
pub enum ProtocolErrorModel {
    UnexpectedEof,
    InvalidData(Seq<char>),
}

impl View for ProtocolError {
    type V = ProtocolErrorModel;

    open spec fn view(&self) -> ProtocolErrorModel {
        match self {
            ProtocolError::UnexpectedEof => ProtocolErrorModel::UnexpectedEof,
            ProtocolError::InvalidData(s) => ProtocolErrorModel::InvalidData(s@),
        }
    }
}

pub open spec fn truncated_u32_msg() -> Seq<char> {
    "Truncated Rows payload (u32)"@
}

pub open spec fn truncated_str_msg() -> Seq<char> {
    "Truncated Rows payload (string)"@
}

pub open spec fn frame_length_msg() -> Seq<char> {
    "Frame length must be at least 1 (type byte)"@
}

/// An upper-case hexadecimal digit.
pub open spec fn hex_digit(d: int) -> char {
    if d < 10 {
        digit_char(d)
    } else if d == 10 {
        'A'
    } else if d == 11 {
        'B'
    } else if d == 12 {
        'C'
    } else if d == 13 {
        'D'
    } else if d == 14 {
        'E'
    } else {
        'F'
    }
}

pub open spec fn unknown_type_msg(t: u8) -> Seq<char> {
    "Unknown message type: 0x"@ + seq![hex_digit((t / 16) as int), hex_digit((t % 16) as int)]
}

/// Reads a length-prefixed string at `off`: the text and the offset after it,
/// or the error text.
pub open spec fn read_str(buf: Seq<u8>, off: int) -> Result<(Seq<char>, int), Seq<char>> {
    if off + 4 > buf.len() {
        Err(truncated_u32_msg())
    } else {
        let n = u32_at(buf, off) as int;
        if off + 4 + n > buf.len() {
            Err(truncated_str_msg())
        } else {
            Ok((text_of_bytes(buf.subrange(off + 4, off + 4 + n)), off + 4 + n))
        }
    }
}

/// Reads `k` length-prefixed strings one after another.
pub open spec fn read_strs(buf: Seq<u8>, off: int, k: nat) -> Result<(Seq<Seq<char>>, int), Seq<char>>
    decreases k,
{
    if k == 0 {
        Ok((Seq::empty(), off))
    } else {
        match read_strs(buf, off, (k - 1) as nat) {
            Err(e) => Err(e),
            Ok((v, o)) => match read_str(buf, o) {
                Err(e) => Err(e),
                Ok((s, o2)) => Ok((v.push(s), o2)),
            },
        }
    }
}

/// Reads `k` rows of `ncols` strings each.
pub open spec fn read_rows(buf: Seq<u8>, off: int, ncols: nat, k: nat) -> Result<
    (Seq<Seq<Seq<char>>>, int),
    Seq<char>,
>
    decreases k,
{
    if k == 0 {
        Ok((Seq::empty(), off))
    } else {
        match read_rows(buf, off, ncols, (k - 1) as nat) {
            Err(e) => Err(e),
            Ok((v, o)) => match read_strs(buf, o, ncols) {
                Err(e) => Err(e),
                Ok((r, o2)) => Ok((v.push(r), o2)),
            },
        }
    }
}

/// Decodes a Rows payload; bytes after the last row are ignored.
pub open spec fn decode_rows_payload(buf: Seq<u8>) -> Result<MessageModel, Seq<char>> {
    if buf.len() < 4 {
        Err(truncated_u32_msg())
    } else {
        let ncols = u32_at(buf, 0) as nat;
        match read_strs(buf, 4, ncols) {
            Err(e) => Err(e),
            Ok((headers, o)) => if o + 4 > buf.len() {
                Err(truncated_u32_msg())
            } else {
                let nrows = u32_at(buf, o) as nat;
                match read_rows(buf, o + 4, ncols, nrows) {
                    Err(e) => Err(e),
                    Ok((rows, _)) => Ok(MessageModel::Rows { headers, rows }),
                }
            },
        }
    }
}

/// Reads the first framed message of `b`: the message and the number of
/// bytes it took, or why no message could be read.
pub open spec fn parse_frame(b: Seq<u8>) -> Result<(MessageModel, int), ProtocolErrorModel> {
    if b.len() < 4 {
        Err(ProtocolErrorModel::UnexpectedEof)
    } else {
        let len = u32_at(b, 0) as int;
        if len < 1 {
            Err(ProtocolErrorModel::InvalidData(frame_length_msg()))
        } else if b.len() < 4 + len {
            Err(ProtocolErrorModel::UnexpectedEof)
        } else {
            let t = b[4];
            let p = b.subrange(5, 4 + len);
            if t == MSG_QUERY {
                Ok((MessageModel::Query(text_of_bytes(p)), 4 + len))
            } else if t == MSG_OK {
                Ok((MessageModel::Okay(text_of_bytes(p)), 4 + len))
            } else if t == MSG_ERROR {
                Ok((MessageModel::Error(text_of_bytes(p)), 4 + len))
            } else if t == MSG_ROWS {
                match decode_rows_payload(p) {
                    Ok(m) => Ok((m, 4 + len)),
                    Err(e) => Err(ProtocolErrorModel::InvalidData(e)),
                }
            } else {
                Err(ProtocolErrorModel::InvalidData(unknown_type_msg(t)))
            }
        }
    }
}

proof fn lemma_read_str_bound(buf: Seq<u8>, off: int)
    ensures
        read_str(buf, off) matches Ok((_, o)) ==> off + 4 <= o <= buf.len(),
{
}

proof fn lemma_read_strs_bound(buf: Seq<u8>, off: int, k: nat)
    requires
        0 <= off <= buf.len(),
    ensures
        read_strs(buf, off, k) matches Ok((v, o)) ==> off <= o <= buf.len() && v.len() == k,
    decreases k,
{
    if k > 0 {
        lemma_read_strs_bound(buf, off, (k - 1) as nat);
    }
}

proof fn lemma_read_strs_err(buf: Seq<u8>, off: int, i: nat, k: nat)
    requires
        i <= k,
        read_strs(buf, off, i) is Err,
    ensures
        read_strs(buf, off, k) == read_strs(buf, off, i),
    decreases k - i,
{
    if k > i {
        lemma_read_strs_err(buf, off, i, (k - 1) as nat);
    }
}

proof fn lemma_read_rows_err(buf: Seq<u8>, off: int, ncols: nat, i: nat, k: nat)
    requires
        i <= k,
        read_rows(buf, off, ncols, i) is Err,
    ensures
        read_rows(buf, off, ncols, k) == read_rows(buf, off, ncols, i),
    decreases k - i,
{
    if k > i {
        lemma_read_rows_err(buf, off, ncols, i, (k - 1) as nat);
    }
}

/// The model of a decoded string and offset, or of the error text.
pub open spec fn str_result(r: Result<(String, usize), String>) -> Result<(Seq<char>, int), Seq<char>> {
    match r {
        Ok((s, o)) => Ok((s@, o as int)),
        Err(e) => Err(e@),
    }
}

pub open spec fn strs_result(r: Result<(Vec<String>, usize), String>) -> Result<(Seq<Seq<char>>, int), Seq<char>> {
    match r {
        Ok((v, o)) => Ok((strings_model(v@), o as int)),
        Err(e) => Err(e@),
    }
}

pub open spec fn rows_result(r: Result<(Vec<Vec<String>>, usize), String>) -> Result<(Seq<Seq<Seq<char>>>, int), Seq<char>> {
    match r {
        Ok((v, o)) => Ok((table_model(v@), o as int)),
        Err(e) => Err(e@),
    }
}

fn read_str_at(buf: &[u8], off: usize) -> (res: Result<(String, usize), String>)
    requires
        off <= buf@.len(),
    ensures
        str_result(res) == read_str(buf@, off as int),
{
    if buf.len() - off < 4 {
        return Err(String::from_str("Truncated Rows payload (u32)"));
    }
    let n = read_u32(buf, off) as usize;
    if buf.len() - off - 4 < n {
        return Err(String::from_str("Truncated Rows payload (string)"));
    }
    let bytes = copy_range(buf, off + 4, n);
    let s = text_from_bytes(bytes.as_slice());
    Ok((s, off + 4 + n))
}

fn read_strs_at(buf: &[u8], off: usize, k: u32) -> (res: Result<(Vec<String>, usize), String>)
    requires
        off <= buf@.len(),
    ensures
        strs_result(res) == read_strs(buf@, off as int, k as nat),
{
    let mut v: Vec<String> = Vec::new();
    let mut o = off;
    let mut i: u32 = 0;
    assert(strings_model(v@) =~= Seq::<Seq<char>>::empty());
    while i < k
        invariant
            off <= o <= buf@.len(),
            i <= k,
            read_strs(buf@, off as int, i as nat) == Ok::<(Seq<Seq<char>>, int), Seq<char>>(
                (strings_model(v@), o as int),
            ),
        decreases k - i,
    {
        proof {
            lemma_read_str_bound(buf@, o as int);
        }
        match read_str_at(buf, o) {
            Err(e) => {
                proof {
                    lemma_read_strs_err(buf@, off as int, (i + 1) as nat, k as nat);
                }
                return Err(e);
            },
            Ok((s, o2)) => {
                let ghost prev = strings_model(v@);
                let ghost t = s@;
                v.push(s);
                o = o2;
                proof {
                    assert(strings_model(v@) =~= prev.push(t));
                }
            },
        }
        i = i + 1;
    }
    Ok((v, o))
}

fn read_rows_at(buf: &[u8], off: usize, ncols: u32, k: u32) -> (res: Result<(Vec<Vec<String>>, usize), String>)
    requires
        off <= buf@.len(),
    ensures
        rows_result(res) == read_rows(buf@, off as int, ncols as nat, k as nat),
{
    let mut v: Vec<Vec<String>> = Vec::new();
    let mut o = off;
    let mut i: u32 = 0;
    assert(table_model(v@) =~= Seq::<Seq<Seq<char>>>::empty());
    while i < k
        invariant
            off <= o <= buf@.len(),
            i <= k,
            read_rows(buf@, off as int, ncols as nat, i as nat) == Ok::<(Seq<Seq<Seq<char>>>, int), Seq<char>>(
                (table_model(v@), o as int),
            ),
        decreases k - i,
    {
        proof {
            lemma_read_strs_bound(buf@, o as int, ncols as nat);
        }
        match read_strs_at(buf, o, ncols) {
            Err(e) => {
                proof {
                    lemma_read_rows_err(buf@, off as int, ncols as nat, (i + 1) as nat, k as nat);
                }
                return Err(e);
            },
            Ok((r, o2)) => {
                let ghost prev = table_model(v@);
                let ghost rm = strings_model(r@);
                v.push(r);
                o = o2;
                proof {
                    assert(table_model(v@) =~= prev.push(rm));
                }
            },
        }
        i = i + 1;
    }
    Ok((v, o))
}

/// The model of a decoded Rows message, or of the error text.
pub open spec fn msg_result(r: Result<Message, String>) -> Result<MessageModel, Seq<char>> {
    match r {
        Ok(m) => Ok(m@),
        Err(e) => Err(e@),
    }
}

/// Decode a Rows payload.
pub fn decode_rows(buf: &[u8]) -> (res: Result<Message, String>)
    ensures
        msg_result(res) == decode_rows_payload(buf@),
{
    if buf.len() < 4 {
        return Err(String::from_str("Truncated Rows payload (u32)"));
    }
    let ncols = read_u32(buf, 0);
    proof {
        lemma_read_strs_bound(buf@, 4, ncols as nat);
    }
    let (headers, o) = match read_strs_at(buf, 4, ncols) {
        Err(e) => return Err(e),
        Ok(x) => x,
    };
    if buf.len() - o < 4 {
        return Err(String::from_str("Truncated Rows payload (u32)"));
    }
    let nrows = read_u32(buf, o);
    match read_rows_at(buf, o + 4, ncols, nrows) {
        Err(e) => Err(e),
        Ok((rows, _)) => Ok(Message::Rows { headers, rows }),
    }
}

} // verus!

verus! {

/// A byte buffer read from the front, the way a stream is read.
pub struct ByteReader {
    pub data: Vec<u8>,
    pub pos: usize,
}

impl ByteReader {
    /// A reader at the start of `data`.
    pub fn new(data: Vec<u8>) -> (r: ByteReader)
        ensures
            r.data@ == data@,
            r.pos == 0,
    {
        ByteReader { data, pos: 0 }
    }

    /// The bytes not yet read.
    pub open spec fn rest(&self) -> Seq<u8> {
        if self.pos <= self.data@.len() {
            self.data@.skip(self.pos as int)
        } else {
            Seq::empty()
        }
    }
}

fn hex_str(d: u8) -> (s: &'static str)
    requires
        d < 16,
    ensures
        s@ == seq![hex_digit(d as int)],
{
    let digits = "0123456789ABCDEF";
    proof {
        reveal_strlit("0123456789ABCDEF");
    }
    let r = digits.substring_char(d as usize, (d + 1) as usize);
    assert(r@ =~= seq![hex_digit(d as int)]);
    r
}

fn unknown_type_string(t: u8) -> (s: String)
    ensures
        s@ == unknown_type_msg(t),
{
    let mut s = String::from_str("Unknown message type: 0x");
    s.append(hex_str(t / 16));
    s.append(hex_str(t % 16));
    assert(s@ =~= unknown_type_msg(t));
    s
}

/// How many bytes reading a frame takes from `b`: all of them when the
/// frame runs past the end, the length field alone when it holds a length
/// below 1, and the whole frame otherwise.
pub open spec fn frame_consumed(b: Seq<u8>) -> int {
    if b.len() < 4 {
        b.len() as int
    } else {
        let len = u32_at(b, 0) as int;
        if len < 1 {
            4
        } else if b.len() < 4 + len {
            b.len() as int
        } else {
            4 + len
        }
    }
}

/// Read one framed message from the reader. The reader moves past what was
/// read: the whole frame, or, where the frame is cut short, to the end.
pub fn read_message(r: &mut ByteReader) -> (res: Result<Message, ProtocolError>)
    ensures
        final(r).data@ == old(r).data@,
        final(r).pos == old(r).pos + frame_consumed(old(r).rest()),
        match parse_frame(old(r).rest()) {
            Ok((m, n)) => res matches Ok(msg) && msg@ == m && n == frame_consumed(old(r).rest()),
            Err(e) => res matches Err(err) && err@ == e,
        },
{
    let n = r.data.len();
    let pos = r.pos;
    let ghost rest = r.rest();
    if pos > n || n - pos < 4 {
        if pos <= n {
            r.pos = n;
        }
        return Err(ProtocolError::UnexpectedEof);
    }
    let len = read_u32(r.data.as_slice(), pos) as usize;
    assert(rest.subrange(0, 4) =~= r.data@.subrange(pos as int, pos + 4));
    if len < 1 {
        r.pos = pos + 4;
        return Err(ProtocolError::InvalidData(String::from_str("Frame length must be at least 1 (type byte)")));
    }
    if n - pos - 4 < len {
        r.pos = n;
        return Err(ProtocolError::UnexpectedEof);
    }
    let t = r.data[pos + 4];
    let payload = copy_range(r.data.as_slice(), pos + 5, len - 1);
    assert(rest.subrange(5, 4 + len) =~= r.data@.subrange(pos + 5, pos + 4 + len));
    let msg = if t == MSG_QUERY {
        Message::Query(text_from_bytes(payload.as_slice()))
    } else if t == MSG_OK {
        Message::Okay(text_from_bytes(payload.as_slice()))
    } else if t == MSG_ERROR {
        Message::Error(text_from_bytes(payload.as_slice()))
    } else if t == MSG_ROWS {
        match decode_rows(payload.as_slice()) {
            Ok(m) => m,
            Err(e) => {
                r.pos = pos + 4 + len;
                return Err(ProtocolError::InvalidData(e));
            },
        }
    } else {
        r.pos = pos + 4 + len;
        return Err(ProtocolError::InvalidData(unknown_type_string(t)));
    };
    r.pos = pos + 4 + len;
    Ok(msg)
}

} // verus!

verus! {

/// Whether a message can be framed as it is: its frame length and its row
/// count fit the u32 fields, and each row of a Rows message has one cell per
/// header.
pub open spec fn framable(m: MessageModel) -> bool {
    &&& payload(m).len() + 1 <= u32::MAX
    &&& (m matches MessageModel::Rows { headers, rows } ==> {
        &&& rows.len() <= u32::MAX
        &&& forall|i: int| 0 <= i < rows.len() ==> #[trigger] rows[i].len() == headers.len()
    })
}

proof fn lemma_strs_len(v: Seq<Seq<char>>)
    ensures
        strs_bytes(v).len() >= 4 * v.len(),
        forall|i: int| 0 <= i < v.len() ==> #[trigger] encode_utf8(v[i]).len() + 4 <= strs_bytes(v).len(),
    decreases v.len(),
{
    lemma_le_roundtrip();
    if v.len() > 0 {
        lemma_strs_len(v.drop_last());
        assert forall|i: int| 0 <= i < v.len() implies #[trigger] encode_utf8(v[i]).len() + 4 <= strs_bytes(v).len() by {
            if i < v.len() - 1 {
                assert(v[i] == v.drop_last()[i]);
            }
        }
    }
}

proof fn lemma_table_len(rows: Seq<Seq<Seq<char>>>)
    ensures
        forall|i: int| 0 <= i < rows.len() ==> #[trigger] strs_bytes(rows[i]).len() <= table_bytes(rows).len(),
    decreases rows.len(),
{
    if rows.len() > 0 {
        lemma_table_len(rows.drop_last());
        assert forall|i: int| 0 <= i < rows.len() implies #[trigger] strs_bytes(rows[i]).len() <= table_bytes(rows).len() by {
            if i < rows.len() - 1 {
                assert(rows[i] == rows.drop_last()[i]);
            }
        }
    }
}

proof fn lemma_read_str_of(buf: Seq<u8>, off: int, s: Seq<char>)
    requires
        0 <= off,
        off + str_bytes(s).len() <= buf.len(),
        buf.subrange(off, off + str_bytes(s).len()) == str_bytes(s),
        encode_utf8(s).len() <= u32::MAX,
    ensures
        read_str(buf, off) == Ok::<(Seq<char>, int), Seq<char>>((s, off + str_bytes(s).len())),
{
    lemma_le_roundtrip();
    let e = encode_utf8(s);
    let h = spec_u32_to_le_bytes(e.len() as u32);
    lemma_split(buf, off, h, e);
    lemma_text_of_encoding(s);
}

proof fn lemma_read_strs_of(buf: Seq<u8>, off: int, v: Seq<Seq<char>>)
    requires
        0 <= off,
        off + strs_bytes(v).len() <= buf.len(),
        buf.subrange(off, off + strs_bytes(v).len()) == strs_bytes(v),
        forall|i: int| 0 <= i < v.len() ==> #[trigger] encode_utf8(v[i]).len() <= u32::MAX,
    ensures
        read_strs(buf, off, v.len()) == Ok::<(Seq<Seq<char>>, int), Seq<char>>(
            (v, off + strs_bytes(v).len()),
        ),
    decreases v.len(),
{
    if v.len() == 0 {
        assert(v =~= Seq::<Seq<char>>::empty());
    } else {
        let p = v.drop_last();
        lemma_split(buf, off, strs_bytes(p), str_bytes(v.last()));
        assert forall|i: int| 0 <= i < p.len() implies #[trigger] encode_utf8(p[i]).len() <= u32::MAX by {
            assert(p[i] == v[i]);
        }
        lemma_read_strs_of(buf, off, p);
        assert(encode_utf8(v[v.len() - 1]).len() <= u32::MAX);
        lemma_read_str_of(buf, off + strs_bytes(p).len(), v.last());
        assert(p.push(v.last()) =~= v);
    }
}

proof fn lemma_read_rows_of(buf: Seq<u8>, off: int, ncols: nat, rows: Seq<Seq<Seq<char>>>)
    requires
        0 <= off,
        off + table_bytes(rows).len() <= buf.len(),
        buf.subrange(off, off + table_bytes(rows).len()) == table_bytes(rows),
        forall|i: int| 0 <= i < rows.len() ==> #[trigger] rows[i].len() == ncols,
        forall|i: int, j: int|
            0 <= i < rows.len() && 0 <= j < rows[i].len() ==> #[trigger] encode_utf8(rows[i][j]).len()
                <= u32::MAX,
    ensures
        read_rows(buf, off, ncols, rows.len()) == Ok::<(Seq<Seq<Seq<char>>>, int), Seq<char>>(
            (rows, off + table_bytes(rows).len()),
        ),
    decreases rows.len(),
{
    if rows.len() == 0 {
        assert(rows =~= Seq::<Seq<Seq<char>>>::empty());
    } else {
        let p = rows.drop_last();
        let last = rows.last();
        lemma_split(buf, off, table_bytes(p), strs_bytes(last));
        assert forall|i: int| 0 <= i < p.len() implies #[trigger] p[i].len() == ncols by {
            assert(p[i] == rows[i]);
        }
        assert forall|i: int, j: int|
            0 <= i < p.len() && 0 <= j < p[i].len() implies #[trigger] encode_utf8(p[i][j]).len()
                <= u32::MAX by {
            assert(p[i] == rows[i]);
        }
        lemma_read_rows_of(buf, off, ncols, p);
        assert(rows[rows.len() - 1].len() == ncols);
        assert forall|j: int| 0 <= j < last.len() implies #[trigger] encode_utf8(last[j]).len()
            <= u32::MAX by {
            assert(last[j] == rows[rows.len() - 1][j]);
        }
        lemma_read_strs_of(buf, off + table_bytes(p).len(), last);
        assert(p.push(last) =~= rows);
    }
}

/// Reading back what `write_message` wrote gives the message again, whatever
/// follows it in the stream, and takes exactly the frame's bytes.
pub proof fn lemma_frame_roundtrip(m: MessageModel, rest: Seq<u8>)
    requires
        framable(m),
    ensures
        parse_frame(frame(m) + rest) == Ok::<(MessageModel, int), ProtocolErrorModel>(
            (m, frame(m).len() as int),
        ),
{
    lemma_le_roundtrip();
    let p = payload(m);
    let len = (p.len() + 1) as u32;
    let b = frame(m) + rest;
    assert((p.len() + 1) % 0x1_0000_0000 == p.len() + 1);
    assert(frame(m) == spec_u32_to_le_bytes(len) + seq![msg_type(m)] + p);
    assert(b.subrange(0, 4) =~= spec_u32_to_le_bytes(len));
    assert(u32_at(b, 0) == len);
    assert(b[4] == msg_type(m));
    assert(b.subrange(5, 4 + len) =~= p);
    match m {
        MessageModel::Query(s) => {
            lemma_text_of_encoding(s);
        },
        MessageModel::Okay(s) => {
            lemma_text_of_encoding(s);
        },
        MessageModel::Error(s) => {
            lemma_text_of_encoding(s);
        },
        MessageModel::Rows { headers, rows } => {
            let hb = strs_bytes(headers);
            let tb = table_bytes(rows);
            let c1 = spec_u32_to_le_bytes(headers.len() as u32);
            let c2 = spec_u32_to_le_bytes(rows.len() as u32);
            assert(p == c1 + hb + c2 + tb);
            lemma_strs_len(headers);
            lemma_table_len(rows);
            assert(headers.len() <= u32::MAX);
            assert forall|i: int| 0 <= i < headers.len() implies #[trigger] encode_utf8(headers[i]).len()
                <= u32::MAX by {
            }
            assert forall|i: int, j: int|
                0 <= i < rows.len() && 0 <= j < rows[i].len() implies #[trigger] encode_utf8(
                    rows[i][j],
                ).len() <= u32::MAX by {
                lemma_strs_len(rows[i]);
                assert(encode_utf8(rows[i][j]).len() + 4 <= strs_bytes(rows[i]).len());
            }
            assert(p.subrange(0, 4) =~= c1);
            assert(u32_at(p, 0) == headers.len() as u32);
            assert(p.subrange(4, 4 + hb.len() as int) =~= hb);
            lemma_read_strs_of(p, 4, headers);
            let o: int = 4 + hb.len() as int;
            assert(p.subrange(o, o + 4) =~= c2);
            assert(u32_at(p, o) == rows.len() as u32);
            assert(p.subrange(o + 4, o + 4 + tb.len() as int) =~= tb);
            lemma_read_rows_of(p, o + 4, headers.len(), rows);
        },
    }
}

} // verus!
