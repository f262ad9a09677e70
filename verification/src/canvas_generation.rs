//! Canvas generation: turns an ordered sequence of issues into a canvas
//! document — one text node per issue, each with a rendered label, a
//! deterministic identifier derived from that label, and a position on
//! a fixed 20-column grid — and renders the document as JSON text.

use crate::issue_parsing::{
    all_files_ok, file_error, file_ok, file_views, first_failure, issue_of, issue_views,
    lemma_parsed_issue_ok, parse_directory, parsed_issues, sorted_order, Issue, IssueFile,
    IssueFileV, IssueV,
};
use crate::text::{
    chars_to_string, dec_digits, dec_value, hex16, hex_digit_char, is_dec_digit,
    lemma_dec_digits_props, lemma_dec_value_zero_prefix, parse_u16_chars, parse_u16_digits,
    push_dec_digits, str_chars, u64_to_hex16,
};
use std::collections::hash_map::DefaultHasher;
use std::hash::Hasher;
use vstd::prelude::*;
use vstd::std_specs::hash::DefaultHasherAdditionalSpecFns;
use vstd::string::*;

verus! {

// ---------------------------------------------------------------------------
// Labels
// ---------------------------------------------------------------------------

/// An issue number rendered in decimal, left-padded with zeros to at
/// least three digits; larger numbers keep their full digit count.
pub open spec fn padded3(n: u16) -> Seq<char> {
    if n < 10 {
        seq!['0', '0'] + dec_digits(n as int)
    } else if n < 100 {
        seq!['0'] + dec_digits(n as int)
    } else {
        dec_digits(n as int)
    }
}

/// A node's label: the padded issue number, a spaced dash, the title.
pub open spec fn label_chars(issue_number: u16, title: Seq<char>) -> Seq<char> {
    padded3(issue_number) + seq![' ', '-', ' '] + title
}

/// Renders an issue's label, `"001 - <title>"` style: the label depends
/// on the issue's number and title alone.
pub fn generate_label(issue: &Issue) -> (r: String)
    ensures
        r@ == label_chars(issue.issue_number, issue.title@),
{
    let mut chars: Vec<char> = Vec::new();
    if issue.issue_number < 10 {
        chars.push('0');
        chars.push('0');
    } else if issue.issue_number < 100 {
        chars.push('0');
    }
    push_dec_digits(&mut chars, issue.issue_number);
    proof {
        assert(chars@ =~= padded3(issue.issue_number));
    }
    chars.push(' ');
    chars.push('-');
    chars.push(' ');
    let mut title_chars = str_chars(issue.title.as_str());
    chars.append(&mut title_chars);
    proof {
        assert(chars@ =~= label_chars(issue.issue_number, issue.title@));
    }
    chars_to_string(&chars)
}

/// For issue numbers up to 999 the label's padded prefix has exactly
/// three digits; larger numbers keep their full digit count. Either
/// way the prefix still denotes the number: parsing it back yields the
/// number again.
pub proof fn lemma_label_prefix(n: u16, title: Seq<char>)
    ensures
        label_chars(n, title) == padded3(n) + seq![' ', '-', ' '] + title,
        n <= 999 ==> padded3(n).len() == 3,
        n >= 1000 ==> padded3(n) == dec_digits(n as int),
        parse_u16_chars(padded3(n)) == Some(n),
{
    lemma_dec_digits_props(n as int);
    let d = dec_digits(n as int);
    if n < 10 {
        assert(padded3(n) =~= seq!['0'] + (seq!['0'] + d));
        lemma_dec_value_zero_prefix(d);
        lemma_dec_value_zero_prefix(seq!['0'] + d);
        assert(dec_value(padded3(n)) == n);
    } else if n < 100 {
        lemma_dec_value_zero_prefix(d);
        assert(dec_value(padded3(n)) == n);
    } else {
        assert(dec_value(padded3(n)) == n);
    }
    assert(forall|i: int|
        0 <= i < padded3(n).len() ==> is_dec_digit(#[trigger] padded3(n)[i]));
    assert(is_dec_digit(padded3(n)[0]));
    assert(padded3(n)[0] != '+');
    assert(parse_u16_digits(padded3(n)) == Some(n));
}

/// Labels are a pure function of the issue's number and title: two
/// issues agreeing on those produce the same label, whatever their
/// author or severity says.
pub proof fn lemma_label_pure(a: IssueV, b: IssueV)
    requires
        a.issue_number == b.issue_number,
        a.title == b.title,
    ensures
        label_chars(a.issue_number, a.title) == label_chars(b.issue_number, b.title),
{
}

// ---------------------------------------------------------------------------
// Identifiers
// ---------------------------------------------------------------------------

/// The UTF-8 encoding of a sequence of characters.
pub uninterp spec fn utf8_bytes(s: Seq<char>) -> Seq<u8>;

/// Relies on `str::as_bytes`: the UTF-8 encoding of a string is a
/// function of its characters alone.
#[verifier::external_body]
fn str_bytes(s: &str) -> (r: Vec<u8>)
    ensures
        r@ == utf8_bytes(s@),
{
    s.as_bytes().to_vec()
}

/// The 64-bit hash of a text: what `DefaultHasher` returns after the
/// two writes that `str`'s `Hash` implementation performs — the text's
/// UTF-8 bytes, then a closing 0xff byte.
pub open spec fn hash64_of(s: Seq<char>) -> u64 {
    DefaultHasher::spec_finish(seq![utf8_bytes(s), seq![255u8]])
}

/// A node identifier: the label's hash as 16 lowercase hex digits.
pub open spec fn id_chars(label: Seq<char>) -> Seq<char> {
    hex16(hash64_of(label))
}

/// Hashes a text with `DefaultHasher`, writing the text's UTF-8 bytes
/// and then the 0xff byte that `str`'s documented `Hash` implementation
/// appends, so the value matches hashing the `str` directly.
pub fn calculate_hash(t: &str) -> (r: u64)
    ensures
        r == hash64_of(t@),
{
    let bytes = str_bytes(t);
    let mut terminator: Vec<u8> = Vec::new();
    terminator.push(255);
    let mut state = DefaultHasher::new();
    state.write(bytes.as_slice());
    state.write(terminator.as_slice());
    proof {
        assert(terminator@ =~= seq![255u8]);
        assert(state@ =~= seq![utf8_bytes(t@), seq![255u8]]);
    }
    state.finish()
}

/// Renders a label's identifier: 16 zero-padded lowercase hex digits of
/// the label's 64-bit hash. The identifier depends on the label alone.
pub fn generate_id(label: &str) -> (r: String)
    ensures
        r@ == id_chars(label@),
{
    let hash = calculate_hash(label);
    let hex = u64_to_hex16(hash);
    chars_to_string(&hex)
}

/// Identifiers are a pure function of the label: equal labels give
/// equal identifiers, in this run and in every later one, since the
/// hash depends on the label's characters alone.
pub proof fn lemma_id_deterministic(label1: Seq<char>, label2: Seq<char>)
    requires
        label1 == label2,
    ensures
        id_chars(label1) == id_chars(label2),
{
}

// ---------------------------------------------------------------------------
// Grid placement
// ---------------------------------------------------------------------------

/// Horizontal grid position of the node for an issue number: the issue's
/// column (20 columns per row) times the 360-pixel column pitch.
pub open spec fn node_x(issue_number: u16) -> u16
    recommends
        1 <= issue_number,
{
    ((((issue_number - 1) % 20) * 360)) as u16
}

/// Vertical grid position of the node for an issue number: the issue's
/// row (20 columns per row) times the 300-pixel row pitch.
pub open spec fn node_y(issue_number: u16) -> u16
    recommends
        1 <= issue_number,
{
    ((((issue_number - 1) / 20) * 300)) as u16
}

/// True when the node for this issue number exists on the grid: the
/// number is at least 1 (a number of 0 has no column) and the vertical
/// position fits the 16-bit coordinate space.
pub open spec fn fits_grid(issue_number: u16) -> bool {
    1 <= issue_number && ((issue_number - 1) / 20) * 300 <= u16::MAX
}

/// Stepping to the next issue number moves the node one column to the
/// right, 360 pixels; stepping past a row's last column (a number that
/// is a multiple of 20) wraps it back to the row's start and one row,
/// 300 pixels, down.
pub proof fn lemma_grid_step(n: u16)
    requires
        n < u16::MAX,
        fits_grid(n),
        fits_grid((n + 1) as u16),
    ensures
        n % 20 != 0 ==> node_x((n + 1) as u16) == node_x(n) + 360,
        n % 20 != 0 ==> node_y((n + 1) as u16) == node_y(n),
        n % 20 == 0 ==> node_x((n + 1) as u16) == 0,
        n % 20 == 0 ==> node_y((n + 1) as u16) == node_y(n) + 300,
{
    let d: int = n as int - 1;
    vstd::arithmetic::div_mod::lemma_fundamental_div_mod(d, 20);
    let q = d / 20;
    let r = d % 20;
    if r < 19 {
        vstd::arithmetic::div_mod::lemma_fundamental_div_mod_converse(d + 1, 20, q, r + 1);
    } else {
        vstd::arithmetic::div_mod::lemma_fundamental_div_mod_converse(d + 1, 20, q + 1, 0);
    }
    vstd::arithmetic::div_mod::lemma_fundamental_div_mod(n as int, 20);
}

pub fn calculate_node_x(issue_number: u16) -> (x: u16)
    requires
        1 <= issue_number,
    ensures
        x == node_x(issue_number),
{
    let column_number = (issue_number - 1) % 20;
    column_number * 360
}

pub fn calculate_node_y(issue_number: u16) -> (y: u16)
    requires
        fits_grid(issue_number),
    ensures
        y == node_y(issue_number),
{
    let row_number = (issue_number - 1) / 20;
    row_number * 300
}

// ---------------------------------------------------------------------------
// Nodes
// ---------------------------------------------------------------------------

/// One text node of the canvas.
#[derive(Debug, PartialEq)]
pub struct CanvasNode {
    /// The node's kind; always `"text"`.
    pub node_type: String,
    /// The rendered label shown on the canvas.
    pub text: String,
    /// 16 hex digits derived from `text`.
    pub id: String,
    pub x: u16,
    pub y: u16,
    pub width: u16,
    pub height: u16,
}

/// The mathematical value of a [`CanvasNode`].
#[verifier::ext_equal]
pub struct CanvasNodeV {
    pub node_type: Seq<char>,
    pub text: Seq<char>,
    pub id: Seq<char>,
    pub x: u16,
    pub y: u16,
    pub width: u16,
    pub height: u16,
}

impl View for CanvasNode {
    type V = CanvasNodeV;

    open spec fn view(&self) -> CanvasNodeV {
        CanvasNodeV {
            node_type: self.node_type@,
            text: self.text@,
            id: self.id@,
            x: self.x,
            y: self.y,
            width: self.width,
            height: self.height,
        }
    }
}

/// The whole canvas document: its nodes, and an always-empty edge list.
pub struct CanvasFile {
    pub nodes: Vec<CanvasNode>,
    pub edges: Vec<()>,
}

/// The node generated for one issue.
pub open spec fn node_of(iv: IssueV) -> CanvasNodeV
    recommends
        fits_grid(iv.issue_number),
{
    CanvasNodeV {
        node_type: "text"@,
        text: label_chars(iv.issue_number, iv.title),
        id: id_chars(label_chars(iv.issue_number, iv.title)),
        x: node_x(iv.issue_number),
        y: node_y(iv.issue_number),
        width: 300,
        height: 150,
    }
}

/// The views of a sequence of canvas nodes.
pub open spec fn node_views(nodes: Seq<CanvasNode>) -> Seq<CanvasNodeV> {
    nodes.map_values(|n: CanvasNode| n@)
}

/// The nodes generated for a sequence of issues, in the same order.
pub open spec fn nodes_of(issues: Seq<IssueV>) -> Seq<CanvasNodeV> {
    issues.map_values(|iv: IssueV| node_of(iv))
}

/// Generates the node for one issue: label, identifier from the label,
/// grid position from the number, fixed 300 by 150 size.
pub fn generate_single_canvas_node(issue: &Issue) -> (r: CanvasNode)
    requires
        fits_grid(issue.issue_number),
    ensures
        r@ == node_of(issue@),
{
    let node_label = generate_label(issue);
    let node_id = generate_id(node_label.as_str());
    let node_x = calculate_node_x(issue.issue_number);
    let node_y = calculate_node_y(issue.issue_number);
    let r = CanvasNode {
        node_type: "text".to_owned(),
        text: node_label,
        id: node_id,
        x: node_x,
        y: node_y,
        width: 300,
        height: 150,
    };
    proof {
        assert(r@ =~= node_of(issue@));
    }
    r
}

/// Generates one node per issue, keeping the issues' order.
pub fn generate_multiple_canvas_nodes(issues: &Vec<Issue>) -> (r: Vec<CanvasNode>)
    requires
        forall|i: int| 0 <= i < issues@.len() ==> fits_grid(#[trigger] issues@[i].issue_number),
    ensures
        node_views(r@) == nodes_of(issues@.map_values(|i: Issue| i@)),
{
    let mut nodes: Vec<CanvasNode> = Vec::new();
    let mut i: usize = 0;
    while i < issues.len()
        invariant
            i <= issues@.len(),
            forall|j: int| 0 <= j < issues@.len() ==> fits_grid(#[trigger] issues@[j].issue_number),
            nodes@.len() == i,
            forall|j: int| 0 <= j < i ==> node_views(nodes@)[j] == node_of(issues@[j]@),
        decreases issues@.len() - i,
    {
        let node = generate_single_canvas_node(&issues[i]);
        proof {
            assert(node_views(nodes@.push(node)) =~= node_views(nodes@).push(node@));
        }
        nodes.push(node);
        i += 1;
    }
    proof {
        assert(node_views(nodes@) =~= nodes_of(issues@.map_values(|i: Issue| i@)));
    }
    nodes
}

// ---------------------------------------------------------------------------
// Document rendering
// ---------------------------------------------------------------------------

/// The JSON rendering of one character inside a string value: quote,
/// backslash and control characters are escaped, everything else stands
/// for itself.
pub open spec fn json_escape_char(c: char) -> Seq<char> {
    if c == '"' {
        seq!['\\', '"']
    } else if c == '\\' {
        seq!['\\', '\\']
    } else if c == '\u{08}' {
        seq!['\\', 'b']
    } else if c == '\u{0C}' {
        seq!['\\', 'f']
    } else if c == '\n' {
        seq!['\\', 'n']
    } else if c == '\r' {
        seq!['\\', 'r']
    } else if c == '\t' {
        seq!['\\', 't']
    } else if (c as u32) < 0x20 {
        seq![
            '\\',
            'u',
            '0',
            '0',
            hex_digit_char((c as u32 / 16) as int),
            hex_digit_char((c as u32 % 16) as int),
        ]
    } else {
        seq![c]
    }
}

/// The JSON escaping of a whole text.
pub open spec fn json_escape(s: Seq<char>) -> Seq<char>
    decreases s.len(),
{
    if s.len() == 0 {
        Seq::empty()
    } else {
        json_escape(s.drop_last()) + json_escape_char(s.last())
    }
}

/// A JSON string value: the escaped text between double quotes.
pub open spec fn json_string(s: Seq<char>) -> Seq<char> {
    seq!['"'] + json_escape(s) + seq!['"']
}

/// The JSON object for one node, pretty-printed at its place in the
/// node array: keys `type`, `text`, `id`, `x`, `y`, `width`, `height`,
/// in that order.
pub open spec fn node_json(nv: CanvasNodeV) -> Seq<char> {
    "    {\n      \"type\": "@ + json_string(nv.node_type) + ",\n      \"text\": "@ + json_string(
        nv.text,
    ) + ",\n      \"id\": "@ + json_string(nv.id) + ",\n      \"x\": "@ + dec_digits(nv.x as int)
        + ",\n      \"y\": "@ + dec_digits(nv.y as int) + ",\n      \"width\": "@ + dec_digits(
        nv.width as int,
    ) + ",\n      \"height\": "@ + dec_digits(nv.height as int) + "\n    }"@
}

/// The node objects, joined with commas.
pub open spec fn nodes_json(nodes: Seq<CanvasNodeV>) -> Seq<char>
    decreases nodes.len(),
{
    if nodes.len() == 0 {
        Seq::empty()
    } else if nodes.len() == 1 {
        node_json(nodes[0])
    } else {
        nodes_json(nodes.drop_last()) + ",\n"@ + node_json(nodes.last())
    }
}

/// The whole canvas document: an object with the node array under
/// `nodes` and an always-empty array under `edges`.
pub open spec fn canvas_json(nodes: Seq<CanvasNodeV>) -> Seq<char> {
    if nodes.len() == 0 {
        "{\n  \"nodes\": [],\n  \"edges\": []\n}"@
    } else {
        "{\n  \"nodes\": [\n"@ + nodes_json(nodes) + "\n  ],\n  \"edges\": []\n}"@
    }
}

/// Escapes a text for use inside a JSON string value.
fn json_escape_exec(chars: &Vec<char>) -> (r: Vec<char>)
    ensures
        r@ == json_escape(chars@),
{
    let mut out: Vec<char> = Vec::new();
    let mut i: usize = 0;
    proof {
        assert(chars@.take(0) =~= Seq::<char>::empty());
    }
    while i < chars.len()
        invariant
            i <= chars@.len(),
            out@ == json_escape(chars@.take(i as int)),
        decreases chars@.len() - i,
    {
        let c = chars[i];
        if c == '"' {
            out.push('\\');
            out.push('"');
        } else if c == '\\' {
            out.push('\\');
            out.push('\\');
        } else if c == '\u{08}' {
            out.push('\\');
            out.push('b');
        } else if c == '\u{0C}' {
            out.push('\\');
            out.push('f');
        } else if c == '\n' {
            out.push('\\');
            out.push('n');
        } else if c == '\r' {
            out.push('\\');
            out.push('r');
        } else if c == '\t' {
            out.push('\\');
            out.push('t');
        } else if (c as u32) < 0x20 {
            let u = c as u32;
            out.push('\\');
            out.push('u');
            out.push('0');
            out.push('0');
            let hi: u8 = (u / 16) as u8;
            let lo: u8 = (u % 16) as u8;
            out.push(if hi < 10 {
                (48 + hi) as char
            } else {
                (87 + hi) as char
            });
            out.push(if lo < 10 {
                (48 + lo) as char
            } else {
                (87 + lo) as char
            });
        } else {
            out.push(c);
        }
        proof {
            assert(chars@.take(i + 1).drop_last() =~= chars@.take(i as int));
            assert(chars@.take(i + 1).last() == chars@[i as int]);
            assert(out@ =~= json_escape(chars@.take(i as int)) + json_escape_char(
                chars@[i as int],
            ));
        }
        i += 1;
    }
    proof {
        assert(chars@.take(chars@.len() as int) =~= chars@);
    }
    out
}

/// Appends a JSON string value to the output.
fn append_json_string(out: &mut String, value: &String)
    ensures
        final(out)@ == old(out)@ + json_string(value@),
{
    let chars = str_chars(value.as_str());
    let escaped = json_escape_exec(&chars);
    let escaped_string = chars_to_string(&escaped);
    out.append("\"");
    out.append(escaped_string.as_str());
    out.append("\"");
    proof {
        reveal_strlit("\"");
        assert("\""@ =~= seq!['"']);
        assert(out@ =~= old(out)@ + json_string(value@));
    }
}

/// Appends a number rendered in decimal to the output.
fn append_dec(out: &mut String, n: u16)
    ensures
        final(out)@ == old(out)@ + dec_digits(n as int),
{
    let mut digits: Vec<char> = Vec::new();
    push_dec_digits(&mut digits, n);
    let digits_string = chars_to_string(&digits);
    out.append(digits_string.as_str());
}

/// Renders one node as its JSON object.
fn node_to_json(node: &CanvasNode) -> (r: String)
    ensures
        r@ == node_json(node@),
{
    let mut s = String::new();
    s.append("    {\n      \"type\": ");
    append_json_string(&mut s, &node.node_type);
    s.append(",\n      \"text\": ");
    append_json_string(&mut s, &node.text);
    s.append(",\n      \"id\": ");
    append_json_string(&mut s, &node.id);
    s.append(",\n      \"x\": ");
    append_dec(&mut s, node.x);
    s.append(",\n      \"y\": ");
    append_dec(&mut s, node.y);
    s.append(",\n      \"width\": ");
    append_dec(&mut s, node.width);
    s.append(",\n      \"height\": ");
    append_dec(&mut s, node.height);
    s.append("\n    }");
    proof {
        assert(s@ =~= node_json(node@));
    }
    s
}

/// Renders the whole canvas as pretty-printed JSON. Only the nodes
/// shape the document; the edge list is always rendered empty.
pub fn canvas_to_json(canvas: &CanvasFile) -> (r: String)
    ensures
        r@ == canvas_json(node_views(canvas.nodes@)),
{
    let nodes = &canvas.nodes;
    if nodes.len() == 0 {
        let mut s = String::new();
        s.append("{\n  \"nodes\": [],\n  \"edges\": []\n}");
        return s;
    }
    let mut s = String::new();
    s.append("{\n  \"nodes\": [\n");
    let mut i: usize = 0;
    while i < nodes.len()
        invariant
            0 < nodes@.len(),
            i <= nodes@.len(),
            i == 0 ==> s@ == "{\n  \"nodes\": [\n"@,
            i > 0 ==> s@ == "{\n  \"nodes\": [\n"@ + nodes_json(node_views(nodes@).take(i as int)),
        decreases nodes@.len() - i,
    {
        if i > 0 {
            s.append(",\n");
        }
        let node_string = node_to_json(&nodes[i]);
        s.append(node_string.as_str());
        proof {
            let nv = node_views(nodes@);
            assert(nv.take(i + 1).drop_last() =~= nv.take(i as int));
            assert(nv.take(i + 1).last() == nv[i as int]);
            assert(nv[i as int] == nodes@[i as int]@);
            if i == 0 {
                assert(nodes_json(nv.take(1)) == node_json(nv[0]));
                assert(s@ =~= "{\n  \"nodes\": [\n"@ + nodes_json(nv.take(1)));
            } else {
                assert(nodes_json(nv.take(i + 1)) == nodes_json(nv.take(i as int)) + ",\n"@
                    + node_json(nv[i as int]));
                assert(s@ =~= "{\n  \"nodes\": [\n"@ + nodes_json(nv.take(i + 1)));
            }
        }
        i += 1;
    }
    s.append("\n  ],\n  \"edges\": []\n}");
    proof {
        assert(node_views(nodes@).take(nodes@.len() as int) =~= node_views(nodes@));
        assert(s@ =~= canvas_json(node_views(canvas.nodes@)));
    }
    s
}

// ---------------------------------------------------------------------------
// The whole conversion
// ---------------------------------------------------------------------------

/// The error reported when some entry of the directory fails to parse:
/// the file's error, wrapped with the directory's path.
pub open spec fn directory_error(directory_path: Seq<char>, cause: Seq<char>) -> Seq<char> {
    "Error while parsing directory `"@ + directory_path + "`: "@ + cause
}

/// Every entry of the listing that parses carries an issue number whose
/// node exists on the grid.
pub open spec fn grid_ok(fv: Seq<IssueFileV>) -> bool {
    forall|j: int|
        0 <= j < fv.len() && file_ok(#[trigger] fv[j]) ==> fits_grid(issue_of(fv[j]).issue_number)
}

/// Converts a directory listing into the canvas document: parses every
/// entry, orders the issues by ascending number, generates one node per
/// issue and renders the document. The first entry that fails to parse
/// aborts the conversion with an error naming the directory and the
/// entry.
pub fn generate_canvas_file_content(directory_path: &str, files: &Vec<IssueFile>) -> (r: Result<
    String,
    String,
>)
    requires
        files@.len() <= 0xFFFFFFFF,
        grid_ok(file_views(files@)),
    ensures
        all_files_ok(file_views(files@)) ==> r is Ok && r->Ok_0@ == canvas_json(
            nodes_of(parsed_issues(file_views(files@))),
        ),
        !all_files_ok(file_views(files@)) ==> r is Err && exists|k: int|
            {
                &&& #[trigger] first_failure(file_views(files@), k)
                &&& r->Err_0@ == directory_error(
                    directory_path@,
                    file_error(file_views(files@)[sorted_order(file_views(files@))[k]]),
                )
            },
{
    let ghost fv = file_views(files@);
    match parse_directory(files) {
        Ok(issues) => {
            proof {
                assert(issue_views(issues@) == parsed_issues(fv));
                assert(issues@.len() == fv.len());
                assert forall|i: int|
                    0 <= i < issues@.len() implies fits_grid(
                    #[trigger] issues@[i].issue_number,
                ) by {
                    lemma_parsed_issue_ok(fv, i);
                    assert(issue_views(issues@)[i] == issues@[i]@);
                    assert(issues@[i]@.issue_number == issues@[i].issue_number);
                }
            }
            let nodes = generate_multiple_canvas_nodes(&issues);
            let canvas = CanvasFile { nodes, edges: Vec::new() };
            let doc = canvas_to_json(&canvas);
            proof {
                assert(node_views(canvas.nodes@) == nodes_of(parsed_issues(fv)));
            }
            Ok(doc)
        },
        Err(e) => {
            let mut msg = String::new();
            msg.append("Error while parsing directory `");
            msg.append(directory_path);
            msg.append("`: ");
            msg.append(e.as_str());
            Err(msg)
        },
    }
}

} // verus!
