//! What the front ends make of input and results: the meta-commands of the
//! REPL and the client, the requests the server tells apart, the message it
//! answers with, and the aligned text table printed for a result set.
use vstd::prelude::*;
use vstd::utf8::*;
use crate::executor::{ExecuteResult, ResultModel};
use crate::protocol::{strings_model, table_model, Message, MessageModel};
use crate::scan::{starts_with, trim, trim_range};
use crate::text::{chars_of, decimal, decimal_string};

verus! {

// ---------------------------------------------------------------------------
// The table, stated over texts.
// ---------------------------------------------------------------------------

/// The length of a text in UTF-8 bytes (what `str::len` gives).
pub open spec fn byte_len(s: Seq<char>) -> nat {
    encode_utf8(s).len()
}

/// The width of column `i`: the largest byte length of its header and of
/// the cells in that column, over the first rows given.
pub open spec fn col_width(headers: Seq<Seq<char>>, rows: Seq<Seq<Seq<char>>>, i: int) -> nat
    decreases rows.len(),
{
    if rows.len() == 0 {
        byte_len(headers[i])
    } else {
        let w = col_width(headers, rows.drop_last(), i);
        let last = rows.last();
        if i < last.len() && byte_len(last[i]) > w {
            byte_len(last[i])
        } else {
            w
        }
    }
}

/// The widths of all columns, one per header.
pub open spec fn widths(headers: Seq<Seq<char>>, rows: Seq<Seq<Seq<char>>>) -> Seq<nat> {
    Seq::new(headers.len(), |i: int| col_width(headers, rows, i))
}

/// `n` spaces.
pub open spec fn spaces(n: nat) -> Seq<char> {
    Seq::new(n, |_i: int| ' ')
}

/// `n` dashes.
pub open spec fn dashes(n: nat) -> Seq<char> {
    Seq::new(n, |_i: int| '-')
}

/// A text padded on the right with spaces to `w` characters (what `{:<w$}`
/// prints; a longer text is kept whole).
pub open spec fn pad(s: Seq<char>, w: nat) -> Seq<char> {
    if s.len() < w {
        s + spaces((w - s.len()) as nat)
    } else {
        s
    }
}

/// The width that cell `i` of a line is padded to: its column's width, or
/// its own byte length past the last column.
pub open spec fn cell_width(ws: Seq<nat>, i: int, cell: Seq<char>) -> nat {
    if i < ws.len() {
        ws[i]
    } else {
        byte_len(cell)
    }
}

/// The cells of a line, each padded.
pub open spec fn padded_cells(cells: Seq<Seq<char>>, ws: Seq<nat>) -> Seq<Seq<char>> {
    Seq::new(cells.len(), |i: int| pad(cells[i], cell_width(ws, i, cells[i])))
}

/// The parts joined with `sep` between each two.
pub open spec fn join(parts: Seq<Seq<char>>, sep: Seq<char>) -> Seq<char>
    decreases parts.len(),
{
    if parts.len() == 0 {
        Seq::empty()
    } else if parts.len() == 1 {
        parts[0]
    } else {
        join(parts.drop_last(), sep) + sep + parts.last()
    }
}

pub open spec fn cell_sep() -> Seq<char> {
    seq![' ', '|', ' ']
}

pub open spec fn divider_sep() -> Seq<char> {
    seq!['-', '+', '-']
}

/// One line of the table, without its line break.
pub open spec fn line(cells: Seq<Seq<char>>, ws: Seq<nat>) -> Seq<char> {
    join(padded_cells(cells, ws), cell_sep())
}

/// The line of dashes under the headers.
pub open spec fn divider(ws: Seq<nat>) -> Seq<char> {
    join(Seq::new(ws.len(), |i: int| dashes(ws[i])), divider_sep())
}

/// The lines of the rows, each followed by a line break.
pub open spec fn body(rows: Seq<Seq<Seq<char>>>, ws: Seq<nat>) -> Seq<char>
    decreases rows.len(),
{
    if rows.len() == 0 {
        Seq::empty()
    } else {
        body(rows.drop_last(), ws) + line(rows.last(), ws) + seq!['\n']
    }
}

/// "(N row)" or "(N rows)".
pub open spec fn count_line(n: nat) -> Seq<char> {
    seq!['('] + decimal(n) + seq![' ', 'r', 'o', 'w'] + (if n == 1 {
        Seq::empty()
    } else {
        seq!['s']
    }) + seq![')']
}

/// The printed table: the header line, the divider, one line per row and
/// the row count, each ending in a line break; "(0 rows)" alone when there
/// are no rows.
pub open spec fn table_text(headers: Seq<Seq<char>>, rows: Seq<Seq<Seq<char>>>) -> Seq<char> {
    if rows.len() == 0 {
        count_line(0) + seq!['\n']
    } else {
        let ws = widths(headers, rows);
        line(headers, ws) + seq!['\n'] + divider(ws) + seq!['\n'] + body(rows, ws) + count_line(
            rows.len(),
        ) + seq!['\n']
    }
}

/// The widths as natural numbers.
pub open spec fn nat_widths(ws: Seq<usize>) -> Seq<nat> {
    ws.map_values(|w: usize| w as nat)
}

// ---------------------------------------------------------------------------
// Building the table.
// ---------------------------------------------------------------------------

/// The length of a string in UTF-8 bytes.
fn str_byte_len(s: &str) -> (n: usize)
    ensures
        n == byte_len(s@),
{
    let b = s.as_bytes();
    b.len()
}

/// Appends `n` copies of the one-character string `c`.
fn push_repeated(out: &mut String, c: &str, n: usize)
    requires
        c@.len() == 1,
    ensures
        final(out)@ == old(out)@ + Seq::new(n as nat, |_i: int| c@[0]),
{
    let mut i: usize = 0;
    while i < n
        invariant
            i <= n,
            c@.len() == 1,
            out@ == old(out)@ + Seq::new(i as nat, |_i: int| c@[0]),
        decreases n - i,
    {
        out.append(c);
        i = i + 1;
        assert(out@ =~= old(out)@ + Seq::new(i as nat, |_i: int| c@[0]));
    }
}

/// Appends `s` padded to `w` characters.
fn push_padded(out: &mut String, s: &str, w: usize)
    ensures
        final(out)@ == old(out)@ + pad(s@, w as nat),
{
    out.append(s);
    let n = s.unicode_len();
    if n < w {
        let sp = " ";
        proof {
            reveal_strlit(" ");
        }
        push_repeated(out, sp, w - n);
        assert(Seq::new((w - n) as nat, |_i: int| sp@[0]) =~= spaces((w - n) as nat));
    }
}

/// The width of each column.
fn column_widths(headers: &Vec<String>, rows: &Vec<Vec<String>>) -> (ws: Vec<usize>)
    ensures
        nat_widths(ws@) == widths(strings_model(headers@), table_model(rows@)),
{
    let ghost h = strings_model(headers@);
    let ghost t = table_model(rows@);
    let mut ws: Vec<usize> = Vec::new();
    let mut i: usize = 0;
    while i < headers.len()
        invariant
            i <= headers@.len(),
            h == strings_model(headers@),
            ws@.len() == i,
            forall|j: int| 0 <= j < i ==> ws@[j] as nat == col_width(h, Seq::empty(), j),
        decreases headers@.len() - i,
    {
        let n = str_byte_len(headers[i].as_str());
        ws.push(n);
        i = i + 1;
    }
    let mut k: usize = 0;
    while k < rows.len()
        invariant
            k <= rows@.len(),
            h == strings_model(headers@),
            t == table_model(rows@),
            ws@.len() == headers@.len(),
            forall|j: int| 0 <= j < ws@.len() ==> ws@[j] as nat == col_width(h, t.take(k as int), j),
        decreases rows@.len() - k,
    {
        let row = &rows[k];
        let ghost before = ws@;
        assert(t.take(k + 1).drop_last() =~= t.take(k as int));
        assert(t.take(k + 1).last() == strings_model(row@));
        let mut i: usize = 0;
        while i < ws.len() && i < row.len()
            invariant
                i <= ws@.len(),
                ws@.len() == before.len() == headers@.len(),
                row == &rows@[k as int],
                k < rows@.len(),
                h == strings_model(headers@),
                t == table_model(rows@),
                t.take(k + 1).drop_last() == t.take(k as int),
                t.take(k + 1).last() == strings_model(row@),
                forall|j: int| 0 <= j < before.len() ==> before[j] as nat == col_width(h, t.take(k as int), j),
                forall|j: int| 0 <= j < i ==> ws@[j] as nat == col_width(h, t.take(k + 1), j),
                forall|j: int| i <= j < ws@.len() ==> ws@[j] == before[j],
            decreases ws@.len() - i,
        {
            let n = str_byte_len(row[i].as_str());
            assert(strings_model(row@)[i as int] == row@[i as int]@);
            assert(n == byte_len(t.take(k + 1).last()[i as int]));
            assert(ws@[i as int] == before[i as int]);
            assert(before[i as int] as nat == col_width(h, t.take(k as int), i as int));
            assert(ws@[i as int] as nat == col_width(h, t.take(k + 1).drop_last(), i as int));
            assert(i < t.take(k + 1).last().len());
            if n > ws[i] {
                ws.set(i, n);
            }
            assert(ws@[i as int] as nat == col_width(h, t.take(k + 1), i as int));
            i = i + 1;
        }
        assert forall|j: int| 0 <= j < ws@.len() implies ws@[j] as nat == col_width(h, t.take(k + 1), j) by {
            if j >= i {
                assert(ws@[j] == before[j]);
                assert(before[j] as nat == col_width(h, t.take(k as int), j));
                assert(j >= strings_model(row@).len());
                assert(col_width(h, t.take(k + 1), j) == col_width(h, t.take(k as int), j));
            }
        }
        k = k + 1;
    }
    assert(t.take(rows@.len() as int) =~= t);
    assert(nat_widths(ws@) =~= widths(h, t));
    ws
}

/// Appends a line of cells, each padded to its column's width.
fn push_line(out: &mut String, cells: &Vec<String>, ws: &Vec<usize>)
    ensures
        final(out)@ == old(out)@ + line(strings_model(cells@), nat_widths(ws@)),
{
    let ghost c = strings_model(cells@);
    let ghost w = nat_widths(ws@);
    let ghost p = padded_cells(c, w);
    let sep = " | ";
    proof {
        reveal_strlit(" | ");
    }
    assert(sep@ =~= cell_sep());
    let mut i: usize = 0;
    while i < cells.len()
        invariant
            i <= cells@.len(),
            c == strings_model(cells@),
            w == nat_widths(ws@),
            p == padded_cells(c, w),
            sep@ == cell_sep(),
            out@ == old(out)@ + join(p.take(i as int), cell_sep()),
        decreases cells@.len() - i,
    {
        let ghost before = out@;
        if i > 0 {
            out.append(sep);
        }
        let cell = cells[i].as_str();
        let width = if i < ws.len() {
            ws[i]
        } else {
            str_byte_len(cell)
        };
        assert(c[i as int] == cell@);
        assert(width as nat == cell_width(w, i as int, c[i as int]));
        push_padded(out, cell, width);
        assert(p.take(i + 1).drop_last() =~= p.take(i as int));
        assert(p.take(i + 1).last() == p[i as int]);
        i = i + 1;
        assert(out@ =~= old(out)@ + join(p.take(i as int), cell_sep()));
    }
    assert(p.take(cells@.len() as int) =~= p);
}

/// Appends the divider: dashes as wide as each column, joined by "-+-".
fn push_divider(out: &mut String, ws: &Vec<usize>)
    ensures
        final(out)@ == old(out)@ + divider(nat_widths(ws@)),
{
    let ghost w = nat_widths(ws@);
    let ghost d = Seq::new(w.len(), |i: int| dashes(w[i]));
    let sep = "-+-";
    let dash = "-";
    proof {
        reveal_strlit("-+-");
        reveal_strlit("-");
    }
    assert(sep@ =~= divider_sep());
    let mut i: usize = 0;
    while i < ws.len()
        invariant
            i <= ws@.len(),
            w == nat_widths(ws@),
            d == Seq::new(w.len(), |i: int| dashes(w[i])),
            sep@ == divider_sep(),
            dash@ == seq!['-'],
            out@ == old(out)@ + join(d.take(i as int), divider_sep()),
        decreases ws@.len() - i,
    {
        if i > 0 {
            out.append(sep);
        }
        push_repeated(out, dash, ws[i]);
        assert(Seq::new(ws@[i as int] as nat, |_i: int| dash@[0]) =~= d[i as int]);
        assert(d.take(i + 1).drop_last() =~= d.take(i as int));
        i = i + 1;
        assert(out@ =~= old(out)@ + join(d.take(i as int), divider_sep()));
    }
    assert(d.take(ws@.len() as int) =~= d);
}

/// Appends the line of each row, each followed by a line break.
fn push_body(out: &mut String, rows: &Vec<Vec<String>>, ws: &Vec<usize>)
    ensures
        final(out)@ == old(out)@ + body(table_model(rows@), nat_widths(ws@)),
{
    let ghost t = table_model(rows@);
    let ghost w = nat_widths(ws@);
    let nl = "\n";
    proof {
        reveal_strlit("\n");
    }
    let mut k: usize = 0;
    while k < rows.len()
        invariant
            k <= rows@.len(),
            t == table_model(rows@),
            w == nat_widths(ws@),
            nl@ == seq!['\n'],
            out@ == old(out)@ + body(t.take(k as int), w),
        decreases rows@.len() - k,
    {
        push_line(out, &rows[k], ws);
        out.append(nl);
        assert(t.take(k + 1).drop_last() =~= t.take(k as int));
        assert(t.take(k + 1).last() == strings_model(rows@[k as int]@));
        k = k + 1;
        assert(out@ =~= old(out)@ + body(t.take(k as int), w));
    }
    assert(t.take(rows@.len() as int) =~= t);
}

/// The table that the console prints for a result set: headers, divider,
/// rows and row count, with the columns aligned.
pub fn render_table(headers: &Vec<String>, rows: &Vec<Vec<String>>) -> (s: String)
    ensures
        s@ == table_text(strings_model(headers@), table_model(rows@)),
{
    let nl = "\n";
    proof {
        reveal_strlit("\n");
    }
    if rows.len() == 0 {
        let s = String::from_str("(0 rows)\n");
        proof {
            reveal_strlit("(0 rows)\n");
            assert(decimal(0) == seq!['0']);
        }
        assert(s@ =~= count_line(0) + seq!['\n']);
        return s;
    }
    let ws = column_widths(headers, rows);
    let mut out = String::new();
    push_line(&mut out, headers, &ws);
    out.append(nl);
    push_divider(&mut out, &ws);
    out.append(nl);
    push_body(&mut out, rows, &ws);
    let n = rows.len();
    out.append("(");
    let d = decimal_string(n as u64);
    out.append(d.as_str());
    out.append(" row");
    if n != 1 {
        out.append("s");
    }
    out.append(")");
    out.append(nl);
    proof {
        reveal_strlit("(");
        reveal_strlit(" row");
        reveal_strlit("s");
        reveal_strlit(")");
    }
    assert(out@ =~= table_text(strings_model(headers@), table_model(rows@)));
    out
}

} // verus!

verus! {

// ---------------------------------------------------------------------------
// Meta-commands and requests.
// ---------------------------------------------------------------------------

pub open spec fn exit_word() -> Seq<char> {
    seq!['.', 'e', 'x', 'i', 't']
}

pub open spec fn quit_word() -> Seq<char> {
    seq!['.', 'q', 'u', 'i', 't']
}

pub open spec fn help_word() -> Seq<char> {
    seq!['.', 'h', 'e', 'l', 'p']
}

pub open spec fn btree_word() -> Seq<char> {
    seq!['.', 'b', 't', 'r', 'e', 'e']
}

/// ".btree " with its space: the prefix of a tree request to the server.
pub open spec fn btree_request_prefix() -> Seq<char> {
    btree_word().push(' ')
}

pub open spec fn error_word() -> Seq<char> {
    seq!['E', 'r', 'r', 'o', 'r', ':']
}

/// A meta-command of the local REPL.
pub enum MetaCommand {
    /// `.exit` or `.quit`.
    Exit,
    /// `.help`.
    Help,
    /// `.btree` with the name of a table.
    Btree(String),
    /// `.btree` with nothing after it.
    BtreeUsage,
    /// Anything else.
    Unknown,
}

/// The model of a meta-command.
pub enum MetaModel {
    Exit,
    Help,
    Btree(Seq<char>),
    BtreeUsage,
    Unknown,
}

impl View for MetaCommand {
    type V = MetaModel;

    open spec fn view(&self) -> MetaModel {
        match self {
            MetaCommand::Exit => MetaModel::Exit,
            MetaCommand::Help => MetaModel::Help,
            MetaCommand::Btree(t) => MetaModel::Btree(t@),
            MetaCommand::BtreeUsage => MetaModel::BtreeUsage,
            MetaCommand::Unknown => MetaModel::Unknown,
        }
    }
}

/// What a command line asks of the REPL: `.exit` and `.quit` leave, `.help`
/// shows the help, `.btree` followed by a table name (trimmed) shows that
/// table's tree, `.btree` with no name shows its usage.
pub open spec fn meta_of(cmd: Seq<char>) -> MetaModel {
    if cmd == exit_word() || cmd == quit_word() {
        MetaModel::Exit
    } else if cmd == help_word() {
        MetaModel::Help
    } else if starts_with(cmd, btree_word()) {
        let t = trim(cmd.skip(btree_word().len() as int));
        if t.len() == 0 {
            MetaModel::BtreeUsage
        } else {
            MetaModel::Btree(t)
        }
    } else {
        MetaModel::Unknown
    }
}

/// A request that the server answers.
pub enum Request {
    /// ".btree " and a table name: the table's tree.
    Btree(String),
    /// Anything else: a SQL statement.
    Sql(String),
}

pub enum RequestModel {
    Btree(Seq<char>),
    Sql(Seq<char>),
}

impl View for Request {
    type V = RequestModel;

    open spec fn view(&self) -> RequestModel {
        match self {
            Request::Btree(t) => RequestModel::Btree(t@),
            Request::Sql(s) => RequestModel::Sql(s@),
        }
    }
}

/// What the server makes of a query's text: it is trimmed; one that begins
/// with ".btree " asks for the tree of the table named after it (trimmed).
pub open spec fn request_of(sql: Seq<char>) -> RequestModel {
    let s = trim(sql);
    if starts_with(s, btree_request_prefix()) {
        RequestModel::Btree(trim(s.skip(btree_request_prefix().len() as int)))
    } else {
        RequestModel::Sql(s)
    }
}

/// `s` without every leading copy of `pat` (what `trim_start_matches` does).
pub open spec fn strip_leading(s: Seq<char>, pat: Seq<char>) -> Seq<char>
    decreases s.len(),
{
    if pat.len() > 0 && starts_with(s, pat) {
        strip_leading(s.skip(pat.len() as int), pat)
    } else {
        s
    }
}

/// The message the server answers a result with: a text that begins with
/// "Error:" becomes an error carrying the rest, trimmed; another text is a
/// success; a result set is sent as it is.
pub open spec fn response_of(r: ResultModel) -> MessageModel {
    match r {
        ResultModel::Message(m) => if starts_with(m, error_word()) {
            MessageModel::Error(trim(strip_leading(m, error_word())))
        } else {
            MessageModel::Okay(m)
        },
        ResultModel::Rows { headers, rows } => MessageModel::Rows { headers, rows },
    }
}

/// Whether `cs[lo..hi]` begins with `pat`.
fn range_starts_with(cs: &Vec<char>, lo: usize, hi: usize, pat: &Vec<char>) -> (b: bool)
    requires
        lo <= hi <= cs@.len(),
    ensures
        b == starts_with(cs@.subrange(lo as int, hi as int), pat@),
{
    let ghost s = cs@.subrange(lo as int, hi as int);
    let m = pat.len();
    if m > hi - lo {
        return false;
    }
    let mut j: usize = 0;
    while j < m
        invariant
            lo + m <= hi <= cs@.len(),
            s == cs@.subrange(lo as int, hi as int),
            m == pat@.len(),
            j <= m,
            forall|k: int| 0 <= k < j ==> #[trigger] s[k] == pat@[k],
        decreases m - j,
    {
        if cs[lo + j] != pat[j] {
            assert(s.take(m as int)[j as int] != pat@[j as int]);
            return false;
        }
        j = j + 1;
    }
    assert(s.take(m as int) =~= pat@);
    true
}

/// Whether `cs[lo..hi]` is `pat`.
fn range_equals(cs: &Vec<char>, lo: usize, hi: usize, pat: &Vec<char>) -> (b: bool)
    requires
        lo <= hi <= cs@.len(),
    ensures
        b == (cs@.subrange(lo as int, hi as int) == pat@),
{
    if hi - lo != pat.len() {
        return false;
    }
    let b = range_starts_with(cs, lo, hi, pat);
    proof {
        let s = cs@.subrange(lo as int, hi as int);
        assert(s.take(pat@.len() as int) =~= s);
    }
    b
}

/// The characters of a string literal.
fn word(s: &str) -> (v: Vec<char>)
    ensures
        v@ == s@,
{
    chars_of(s)
}

/// The text of characters `lo..hi`.
fn text_of(input: &str, cs: &Vec<char>, lo: usize, hi: usize) -> (s: String)
    requires
        cs@ == input@,
        lo <= hi <= cs@.len(),
    ensures
        s@ == cs@.subrange(lo as int, hi as int),
{
    String::from_str(input.substring_char(lo, hi))
}

/// Reads a meta-command of the REPL.
pub fn meta_command(cmd: &str) -> (m: MetaCommand)
    ensures
        m@ == meta_of(cmd@),
{
    let cs = chars_of(cmd);
    let n = cs.len();
    let exit = word(".exit");
    let quit = word(".quit");
    let help = word(".help");
    let btree = word(".btree");
    proof {
        reveal_strlit(".exit");
        reveal_strlit(".quit");
        reveal_strlit(".help");
        reveal_strlit(".btree");
        assert(cs@.subrange(0, n as int) =~= cmd@);
        assert(exit@ =~= exit_word());
        assert(quit@ =~= quit_word());
        assert(help@ =~= help_word());
        assert(btree@ =~= btree_word());
    }
    if range_equals(&cs, 0, n, &exit) || range_equals(&cs, 0, n, &quit) {
        return MetaCommand::Exit;
    }
    if range_equals(&cs, 0, n, &help) {
        return MetaCommand::Help;
    }
    if !range_starts_with(&cs, 0, n, &btree) {
        return MetaCommand::Unknown;
    }
    let (a, b) = trim_range(&cs, btree.len(), n);
    assert(cs@.subrange(btree@.len() as int, n as int) =~= cmd@.skip(btree_word().len() as int));
    if a == b {
        MetaCommand::BtreeUsage
    } else {
        MetaCommand::Btree(text_of(cmd, &cs, a, b))
    }
}

/// Tells a tree request from a SQL statement.
pub fn request(sql: &str) -> (r: Request)
    ensures
        r@ == request_of(sql@),
{
    let cs = chars_of(sql);
    let n = cs.len();
    let prefix = word(".btree ");
    proof {
        reveal_strlit(".btree ");
        assert(cs@.subrange(0, n as int) =~= sql@);
        assert(prefix@ =~= btree_request_prefix());
    }
    let (a, b) = trim_range(&cs, 0, n);
    if range_starts_with(&cs, a, b, &prefix) {
        let (c, d) = trim_range(&cs, a + prefix.len(), b);
        assert(cs@.subrange((a + prefix@.len()) as int, b as int) =~= cs@.subrange(a as int, b as int).skip(
            btree_request_prefix().len() as int,
        ));
        Request::Btree(text_of(sql, &cs, c, d))
    } else {
        Request::Sql(text_of(sql, &cs, a, b))
    }
}

/// The message the server answers a result with.
pub fn response_message(r: ExecuteResult) -> (m: Message)
    ensures
        m@ == response_of(r@),
{
    match r {
        ExecuteResult::Message(s) => {
            let cs = chars_of(s.as_str());
            let n = cs.len();
            let err = word("Error:");
            proof {
                reveal_strlit("Error:");
                assert(cs@.subrange(0, n as int) =~= s@);
                assert(err@ =~= error_word());
            }
            if !range_starts_with(&cs, 0, n, &err) {
                return Message::Okay(s);
            }
            let mut a: usize = 0;
            while range_starts_with(&cs, a, n, &err)
                invariant
                    a <= n == cs@.len(),
                    cs@ == s@,
                    err@ == error_word(),
                    strip_leading(s@, error_word()) == strip_leading(cs@.subrange(a as int, n as int), error_word()),
                decreases n - a,
            {
                assert(cs@.subrange(a as int, n as int).skip(err@.len() as int) =~= cs@.subrange(
                    (a + err@.len()) as int,
                    n as int,
                ));
                a = a + err.len();
            }
            assert(strip_leading(cs@.subrange(a as int, n as int), error_word()) == cs@.subrange(a as int, n as int));
            let (c, d) = trim_range(&cs, a, n);
            Message::Error(text_of(s.as_str(), &cs, c, d))
        },
        ExecuteResult::Rows { headers, rows } => Message::Rows { headers, rows },
    }
}

/// The message that answers a tree request.
pub fn tree_response(r: Result<String, String>) -> (m: Message)
    ensures
        m@ == (match r {
            Ok(t) => MessageModel::Okay(t@),
            Err(e) => MessageModel::Error(e@),
        }),
{
    match r {
        Ok(t) => Message::Okay(t),
        Err(e) => Message::Error(e),
    }
}

} // verus!

verus! {

// ---------------------------------------------------------------------------
// Table files.
// ---------------------------------------------------------------------------

pub open spec fn db_suffix() -> Seq<char> {
    seq!['.', 'd', 'b']
}

/// Whether `s` ends with `pat`.
pub open spec fn ends_with(s: Seq<char>, pat: Seq<char>) -> bool {
    pat.len() <= s.len() && s.skip(s.len() - pat.len()) == pat
}

/// `s` without every trailing copy of `pat` (what `trim_end_matches` does).
pub open spec fn strip_trailing(s: Seq<char>, pat: Seq<char>) -> Seq<char>
    decreases s.len(),
{
    if pat.len() > 0 && ends_with(s, pat) {
        strip_trailing(s.take(s.len() - pat.len()), pat)
    } else {
        s
    }
}

/// The table that a file of the data directory holds: a file whose name
/// ends in ".db" holds the table named by the rest of it.
pub open spec fn table_of_file(name: Seq<char>) -> Option<Seq<char>> {
    if ends_with(name, db_suffix()) {
        Some(strip_trailing(name, db_suffix()))
    } else {
        None
    }
}

/// The name of the table that a file holds, if it is a table file.
pub fn table_of_file_name(name: &str) -> (r: Option<String>)
    ensures
        r matches Some(t) ==> table_of_file(name@) == Some(t@),
        r is None ==> table_of_file(name@) is None,
{
    let cs = chars_of(name);
    let n = cs.len();
    let suffix = word(".db");
    proof {
        reveal_strlit(".db");
        assert(suffix@ =~= db_suffix());
        assert(cs@.subrange(0, n as int) =~= name@);
    }
    if n < 3 || !range_equals(&cs, n - 3, n, &suffix) {
        assert(n >= 3 ==> cs@.subrange(n - 3, n as int) =~= name@.skip(name@.len() - 3));
        return None;
    }
    assert(cs@.subrange(n - 3, n as int) =~= name@.skip(name@.len() - 3));
    let mut b: usize = n;
    while b >= 3 && range_equals(&cs, b - 3, b, &suffix)
        invariant
            b <= n == cs@.len(),
            cs@ == name@,
            suffix@ == db_suffix(),
            strip_trailing(name@, db_suffix()) == strip_trailing(cs@.take(b as int), db_suffix()),
        decreases b,
    {
        assert(cs@.take(b as int).skip(b - 3) =~= cs@.subrange(b - 3, b as int));
        assert(cs@.take(b as int).take(b - 3) =~= cs@.take(b - 3));
        b = b - 3;
    }
    proof {
        if b >= 3 {
            assert(cs@.take(b as int).skip(b - 3) =~= cs@.subrange(b - 3, b as int));
        }
        assert(cs@.take(b as int) =~= cs@.subrange(0, b as int));
    }
    Some(text_of(name, &cs, 0, b))
}

} // verus!

verus! {

/// Each column is exactly as wide as the widest of its header and of its
/// cells in every row: no cell is wider than its column, and the width is
/// that of the header or of one of the cells.
pub proof fn lemma_col_width_is_widest(headers: Seq<Seq<char>>, rows: Seq<Seq<Seq<char>>>, i: int)
    requires
        0 <= i < headers.len(),
    ensures
        col_width(headers, rows, i) >= byte_len(headers[i]),
        forall|r: int|
            0 <= r < rows.len() && i < rows[r].len() ==> col_width(headers, rows, i) >= byte_len(
                #[trigger] rows[r][i],
            ),
        col_width(headers, rows, i) == byte_len(headers[i]) || exists|r: int|
            0 <= r < rows.len() && i < rows[r].len() && col_width(headers, rows, i) == byte_len(
                #[trigger] rows[r][i],
            ),
    decreases rows.len(),
{
    if rows.len() > 0 {
        let front = rows.drop_last();
        lemma_col_width_is_widest(headers, front, i);
        assert forall|r: int| 0 <= r < rows.len() && i < rows[r].len() implies col_width(headers, rows, i)
            >= byte_len(#[trigger] rows[r][i]) by {
            if r < rows.len() - 1 {
                assert(rows[r] == front[r]);
            }
        }
        if col_width(headers, rows, i) != byte_len(headers[i]) {
            if i < rows.last().len() && byte_len(rows.last()[i]) > col_width(headers, front, i) {
                assert(rows[rows.len() - 1] == rows.last());
            } else {
                let r = choose|r: int|
                    0 <= r < front.len() && i < front[r].len() && col_width(headers, front, i) == byte_len(
                        #[trigger] front[r][i],
                    );
                assert(rows[r] == front[r]);
            }
        }
    }
}

/// The widths of a table: one per header, each that column's widest text.
pub proof fn lemma_widths_fit_every_cell(headers: Seq<Seq<char>>, rows: Seq<Seq<Seq<char>>>)
    ensures
        widths(headers, rows).len() == headers.len(),
        forall|i: int| 0 <= i < headers.len() ==> widths(headers, rows)[i] >= byte_len(#[trigger] headers[i]),
        forall|r: int, i: int|
            0 <= r < rows.len() && 0 <= i < headers.len() && i < rows[r].len() ==> widths(headers, rows)[i]
                >= byte_len(#[trigger] rows[r][i]),
{
    assert forall|i: int| 0 <= i < headers.len() implies widths(headers, rows)[i] >= byte_len(
        #[trigger] headers[i],
    ) by {
        lemma_col_width_is_widest(headers, rows, i);
    }
    assert forall|r: int, i: int| 0 <= r < rows.len() && 0 <= i < headers.len() && i < rows[r].len() implies widths(
        headers,
        rows,
    )[i] >= byte_len(#[trigger] rows[r][i]) by {
        lemma_col_width_is_widest(headers, rows, i);
    }
}

} // verus!
