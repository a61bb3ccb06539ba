//! The file codec: one note file is a metadata block between `---` delimiter
//! lines, followed by a blank line and the free-text body.
//!
//! The metadata block is a small YAML subset with a fixed key order:
//!
//! ```text
//! ---
//! id: 7
//! title: 'Groceries'
//! tags:
//! - 'errands'
//! createdAt: '2024-05-01T09:00:00+00:00'
//! updatedAt: '2024-05-01T09:00:00+00:00'
//! ---
//!
//! milk, eggs
//! ```
//!
//! Encoding writes every string single-quoted (quotes doubled), or
//! double-quoted with backslash escapes when the string holds a line break;
//! an empty tag list is written `tags: []`.  Decoding also accepts plain
//! scalars (`title: T`) and flow lists (`tags: [a, b]`), the other styles a
//! YAML serializer emits for this block.  Scalars never hold a raw line
//! break, so no metadata line can begin with a dash except the `- ` of a
//! list item, and the closing delimiter is recognized as the first `---`
//! that starts a line: decoding inverts encoding for every title, tag name
//! and timestamp, including ones that contain `---`.

use vstd::prelude::*;

use crate::text::{
    all_digits, digits_val, is_digit, lemma_digits_val_prefix_le, lemma_u32_digits_ok, match_at,
    sp_match, u32_digits, u32_to_string,
};
use crate::types::{Frontmatter, FrontmatterView, Note, NoteError, NoteView};

verus! {

// ---------------------------------------------------------------------------
// The grammar, at the specification level.
// ---------------------------------------------------------------------------

/// The three-character delimiter.
pub open spec fn delim() -> Seq<char> {
    seq!['-', '-', '-']
}

/// Key prefix of the id line.
pub open spec fn key_id() -> Seq<char> {
    seq!['i', 'd', ':', ' ']
}

/// Key prefix of the title line.
pub open spec fn key_title() -> Seq<char> {
    seq!['t', 'i', 't', 'l', 'e', ':', ' ']
}

/// The whole line of an empty tag list.
pub open spec fn tags_empty_line() -> Seq<char> {
    seq!['t', 'a', 'g', 's', ':', ' ', '[', ']', '\n']
}

/// Header line of a block-style tag list.
pub open spec fn tags_header() -> Seq<char> {
    seq!['t', 'a', 'g', 's', ':', '\n']
}

/// Opening of a flow-style tag list.
pub open spec fn tags_flow_open() -> Seq<char> {
    seq!['t', 'a', 'g', 's', ':', ' ', '[']
}

/// Prefix of one block list item.
pub open spec fn item_prefix() -> Seq<char> {
    seq!['-', ' ']
}

/// Key prefix of the creation timestamp line.
pub open spec fn key_created() -> Seq<char> {
    seq!['c', 'r', 'e', 'a', 't', 'e', 'd', 'A', 't', ':', ' ']
}

/// Key prefix of the update timestamp line.
pub open spec fn key_updated() -> Seq<char> {
    seq!['u', 'p', 'd', 'a', 't', 'e', 'd', 'A', 't', ':', ' ']
}

/// One character inside a single-quoted scalar: quotes are doubled.
pub open spec fn sq_char(c: char) -> Seq<char> {
    if c == '\'' { seq!['\'', '\''] } else { seq![c] }
}

/// A string's characters as they stand inside single quotes.
pub open spec fn sq_esc(s: Seq<char>) -> Seq<char>
    decreases s.len(),
{
    if s.len() == 0 {
        Seq::empty()
    } else {
        sq_char(s[0]) + sq_esc(s.drop_first())
    }
}

/// A single-quoted scalar.
pub open spec fn sq(s: Seq<char>) -> Seq<char> {
    seq!['\''] + sq_esc(s) + seq!['\'']
}

/// One character inside a double-quoted scalar: backslash, double quote and
/// line breaks are escaped.
pub open spec fn dq_char(c: char) -> Seq<char> {
    if c == '\\' { seq!['\\', '\\'] }
    else if c == '"' { seq!['\\', '"'] }
    else if c == '\n' { seq!['\\', 'n'] }
    else if c == '\r' { seq!['\\', 'r'] }
    else { seq![c] }
}

/// A string's characters as they stand inside double quotes.
pub open spec fn dq_esc(s: Seq<char>) -> Seq<char>
    decreases s.len(),
{
    if s.len() == 0 {
        Seq::empty()
    } else {
        dq_char(s[0]) + dq_esc(s.drop_first())
    }
}

/// A double-quoted scalar.
pub open spec fn dq(s: Seq<char>) -> Seq<char> {
    seq!['"'] + dq_esc(s) + seq!['"']
}

/// The string holds a line break.
pub open spec fn has_break(s: Seq<char>) -> bool {
    exists|i: int| 0 <= i < s.len() && (#[trigger] s[i] == '\n' || s[i] == '\r')
}

/// A string value as encoding writes it: double-quoted when it holds a line
/// break, single-quoted otherwise.
pub open spec fn scalar_enc(s: Seq<char>) -> Seq<char> {
    if has_break(s) {
        dq(s)
    } else {
        sq(s)
    }
}

/// The tag list items, one line per tag.
pub open spec fn sp_tag_items(tags: Seq<Seq<char>>) -> Seq<char>
    decreases tags.len(),
{
    if tags.len() == 0 {
        Seq::empty()
    } else {
        item_prefix() + scalar_enc(tags[0]) + seq!['\n'] + sp_tag_items(tags.drop_first())
    }
}

/// The tag part of the metadata block.
pub open spec fn sp_tags_block(tags: Seq<Seq<char>>) -> Seq<char> {
    if tags.len() == 0 {
        tags_empty_line()
    } else {
        tags_header() + sp_tag_items(tags)
    }
}

/// The metadata segment between the two delimiter lines, leading newline
/// included.
pub open spec fn sp_meta(fm: FrontmatterView) -> Seq<char> {
    seq!['\n'] + key_id() + u32_digits(fm.id as int) + seq!['\n'] + key_title() + scalar_enc(
        fm.title,
    ) + seq!['\n'] + sp_tags_block(fm.tags) + key_created() + scalar_enc(fm.created_at)
        + seq!['\n'] + key_updated() + scalar_enc(fm.updated_at) + seq!['\n']
}

/// The full text of a note file.
pub open spec fn sp_encode(fm: FrontmatterView, body: Seq<char>) -> Seq<char> {
    delim() + sp_meta(fm) + delim() + seq!['\n', '\n'] + body
}

// ---------------------------------------------------------------------------
// The parser, at the specification level.
// ---------------------------------------------------------------------------

/// Position of the first delimiter that starts a line at or after `pos`:
/// the newline that ends the line before it.
pub open spec fn sp_find_close(s: Seq<char>, pos: int) -> Option<int>
    decreases s.len() - pos,
{
    if pos < 0 || pos + 4 > s.len() {
        None
    } else if s[pos] == '\n' && s[pos + 1] == '-' && s[pos + 2] == '-' && s[pos + 3] == '-' {
        Some(pos)
    } else {
        sp_find_close(s, pos + 1)
    }
}

/// The text opens with a delimiter and a delimiter line follows: the
/// frontmatter shape that decoding demands before it looks at the metadata.
pub open spec fn sp_shape(text: Seq<char>) -> bool {
    sp_match(text, 0, delim()) && sp_find_close(text, 3) is Some
}

/// Leading newlines of the raw body are trimmed.
pub open spec fn strip_nl(s: Seq<char>) -> Seq<char>
    decreases s.len(),
{
    if s.len() > 0 && s[0] == '\n' {
        strip_nl(s.drop_first())
    } else {
        s
    }
}

/// The characters allowed after a backslash inside double quotes.
pub open spec fn is_dq_code(c: char) -> bool {
    c == '\\' || c == '"' || c == 'n' || c == 'r' || c == 't'
}

/// The character a double-quote escape code stands for.
pub open spec fn undq_char(c: char) -> char {
    if c == 'n' { '\n' } else if c == 'r' { '\r' } else if c == 't' { '\t' } else { c }
}

/// Parses the inside of a single-quoted scalar from `pos` up to and over the
/// closing quote; a doubled quote stands for one quote, and no raw line
/// break may occur.
pub open spec fn sp_sq_body(s: Seq<char>, pos: int) -> Option<(Seq<char>, int)>
    decreases s.len() - pos,
{
    if pos < 0 || pos >= s.len() {
        None
    } else if s[pos] == '\'' {
        if pos + 1 < s.len() && s[pos + 1] == '\'' {
            match sp_sq_body(s, pos + 2) {
                Some((t, e)) => Some((seq!['\''] + t, e)),
                None => None,
            }
        } else {
            Some((Seq::empty(), pos + 1))
        }
    } else if s[pos] == '\n' || s[pos] == '\r' {
        None
    } else {
        match sp_sq_body(s, pos + 1) {
            Some((t, e)) => Some((seq![s[pos]] + t, e)),
            None => None,
        }
    }
}

/// Parses the inside of a double-quoted scalar from `pos` up to and over the
/// closing quote.
pub open spec fn sp_dq_body(s: Seq<char>, pos: int) -> Option<(Seq<char>, int)>
    decreases s.len() - pos,
{
    if pos < 0 || pos >= s.len() {
        None
    } else if s[pos] == '"' {
        Some((Seq::empty(), pos + 1))
    } else if s[pos] == '\\' {
        if pos + 1 < s.len() && is_dq_code(s[pos + 1]) {
            match sp_dq_body(s, pos + 2) {
                Some((t, e)) => Some((seq![undq_char(s[pos + 1])] + t, e)),
                None => None,
            }
        } else {
            None
        }
    } else if s[pos] == '\n' || s[pos] == '\r' {
        None
    } else {
        match sp_dq_body(s, pos + 1) {
            Some((t, e)) => Some((seq![s[pos]] + t, e)),
            None => None,
        }
    }
}

/// End of the current line: the position of the next newline, or the end of
/// the text.
pub open spec fn sp_line_end(s: Seq<char>, pos: int) -> int
    decreases s.len() - pos,
{
    if pos < 0 || pos >= s.len() {
        pos
    } else if s[pos] == '\n' {
        pos
    } else {
        sp_line_end(s, pos + 1)
    }
}

/// Parses a scalar in line context: single-quoted, double-quoted, or plain
/// up to the end of the line.
pub open spec fn sp_scalar(s: Seq<char>, pos: int) -> Option<(Seq<char>, int)> {
    if pos < 0 || pos > s.len() {
        None
    } else if pos < s.len() && s[pos] == '\'' {
        sp_sq_body(s, pos + 1)
    } else if pos < s.len() && s[pos] == '"' {
        sp_dq_body(s, pos + 1)
    } else {
        Some((s.subrange(pos, sp_line_end(s, pos)), sp_line_end(s, pos)))
    }
}

/// End of the digit run that starts at `pos`.
pub open spec fn sp_digits_end(s: Seq<char>, pos: int) -> int
    decreases s.len() - pos,
{
    if pos < 0 || pos >= s.len() {
        pos
    } else if is_digit(s[pos]) {
        sp_digits_end(s, pos + 1)
    } else {
        pos
    }
}

/// Parses an unsigned 32-bit decimal at `pos`: at least one digit, value in
/// range.
pub open spec fn sp_u32(s: Seq<char>, pos: int) -> Option<(u32, int)> {
    let end = sp_digits_end(s, pos);
    if pos >= 0 && end > pos && digits_val(s.subrange(pos, end)) <= u32::MAX {
        Some((digits_val(s.subrange(pos, end)) as u32, end))
    } else {
        None
    }
}

/// Parses block-style tag list items while lines begin with `- `.
pub open spec fn sp_items(s: Seq<char>, pos: int) -> Option<(Seq<Seq<char>>, int)>
    decreases s.len() - pos,
{
    if pos < 0 {
        None
    } else if sp_match(s, pos, item_prefix()) {
        match sp_scalar(s, pos + 2) {
            Some((name, e)) => {
                if e < s.len() && s[e] == '\n' && e + 1 > pos {
                    match sp_items(s, e + 1) {
                        Some((rest, e2)) => Some((seq![name] + rest, e2)),
                        None => None,
                    }
                } else {
                    None
                }
            },
            None => None,
        }
    } else {
        Some((Seq::empty(), pos))
    }
}

/// First position at or after `pos` that is not a space.
pub open spec fn sp_skip_sp(s: Seq<char>, pos: int) -> int
    decreases s.len() - pos,
{
    if pos < 0 || pos >= s.len() {
        pos
    } else if s[pos] == ' ' {
        sp_skip_sp(s, pos + 1)
    } else {
        pos
    }
}

/// End of a plain scalar in flow context: the next comma, closing bracket or
/// newline.
pub open spec fn sp_flow_end(s: Seq<char>, pos: int) -> int
    decreases s.len() - pos,
{
    if pos < 0 || pos >= s.len() {
        pos
    } else if s[pos] == ',' || s[pos] == ']' || s[pos] == '\n' {
        pos
    } else {
        sp_flow_end(s, pos + 1)
    }
}

/// Trailing spaces trimmed.
pub open spec fn rstrip_sp(s: Seq<char>) -> Seq<char>
    decreases s.len(),
{
    if s.len() > 0 && s.last() == ' ' {
        rstrip_sp(s.drop_last())
    } else {
        s
    }
}

/// Parses one scalar in flow context: quoted, or plain up to the next comma
/// or closing bracket, trailing spaces trimmed.
pub open spec fn sp_flow_scalar(s: Seq<char>, pos: int) -> Option<(Seq<char>, int)> {
    if pos < 0 || pos > s.len() {
        None
    } else if pos < s.len() && s[pos] == '\'' {
        sp_sq_body(s, pos + 1)
    } else if pos < s.len() && s[pos] == '"' {
        sp_dq_body(s, pos + 1)
    } else {
        let end = sp_flow_end(s, pos);
        if end < s.len() && (s[end] == ',' || s[end] == ']') {
            Some((rstrip_sp(s.subrange(pos, end)), end))
        } else {
            None
        }
    }
}

/// Parses the items of a non-empty flow list, from the first item up to and
/// over the closing bracket.
pub open spec fn sp_flow_items(s: Seq<char>, pos: int) -> Option<(Seq<Seq<char>>, int)>
    decreases s.len() - pos,
{
    if pos < 0 {
        None
    } else {
        match sp_flow_scalar(s, pos) {
            None => None,
            Some((v, e)) => {
                let q = sp_skip_sp(s, e);
                if q < s.len() && s[q] == ',' {
                    let q2 = sp_skip_sp(s, q + 1);
                    if q2 > pos && q2 <= s.len() {
                        match sp_flow_items(s, q2) {
                            Some((rest, e2)) => Some((seq![v] + rest, e2)),
                            None => None,
                        }
                    } else {
                        None
                    }
                } else if q < s.len() && s[q] == ']' {
                    Some((seq![v], q + 1))
                } else {
                    None
                }
            },
        }
    }
}

/// Parses a flow list from just past the opening bracket, up to and over the
/// closing one.
pub open spec fn sp_flow(s: Seq<char>, pos: int) -> Option<(Seq<Seq<char>>, int)> {
    if pos < 0 || pos > s.len() {
        None
    } else {
        let p = sp_skip_sp(s, pos);
        if p < s.len() && s[p] == ']' {
            Some((Seq::empty(), p + 1))
        } else {
            sp_flow_items(s, p)
        }
    }
}

/// Parses `key` followed by a scalar and a newline; yields the value and the
/// position after the newline.
pub open spec fn sp_keyed_scalar(s: Seq<char>, pos: int, key: Seq<char>) -> Option<
    (Seq<char>, int),
> {
    if sp_match(s, pos, key) {
        match sp_scalar(s, pos + key.len()) {
            Some((v, e)) => {
                if e < s.len() && s[e] == '\n' {
                    Some((v, e + 1))
                } else {
                    None
                }
            },
            None => None,
        }
    } else {
        None
    }
}

/// Parses the id line.
pub open spec fn sp_id_line(s: Seq<char>, pos: int) -> Option<(u32, int)> {
    if sp_match(s, pos, key_id()) {
        match sp_u32(s, pos + 4) {
            Some((id, e)) => {
                if e < s.len() && s[e] == '\n' {
                    Some((id, e + 1))
                } else {
                    None
                }
            },
            None => None,
        }
    } else {
        None
    }
}

/// Parses the tag part: a block list under a `tags:` header, or a flow list
/// (the empty list `[]` included).
pub open spec fn sp_tags_part(s: Seq<char>, pos: int) -> Option<(Seq<Seq<char>>, int)> {
    if sp_match(s, pos, tags_header()) {
        sp_items(s, pos + 6)
    } else if sp_match(s, pos, tags_flow_open()) {
        match sp_flow(s, pos + 7) {
            Some((tags, e)) => {
                if e < s.len() && s[e] == '\n' {
                    Some((tags, e + 1))
                } else {
                    None
                }
            },
            None => None,
        }
    } else {
        None
    }
}

/// Parses the whole metadata segment; every key must be present, in order,
/// and nothing may follow the last line.
pub open spec fn sp_parse_meta(m: Seq<char>) -> Option<FrontmatterView> {
    if m.len() == 0 || m[0] != '\n' {
        None
    } else {
        match sp_id_line(m, 1) {
            None => None,
            Some((id, p1)) => match sp_keyed_scalar(m, p1, key_title()) {
                None => None,
                Some((title, p2)) => match sp_tags_part(m, p2) {
                    None => None,
                    Some((tags, p3)) => match sp_keyed_scalar(m, p3, key_created()) {
                        None => None,
                        Some((created, p4)) => match sp_keyed_scalar(m, p4, key_updated()) {
                            None => None,
                            Some((updated, p5)) => {
                                if p5 == m.len() {
                                    Some(
                                        FrontmatterView {
                                            id,
                                            title,
                                            tags,
                                            created_at: created,
                                            updated_at: updated,
                                        },
                                    )
                                } else {
                                    None
                                }
                            },
                        },
                    },
                },
            },
        }
    }
}

/// Decoding of a whole file: the metadata block and the body with leading
/// newlines trimmed, or nothing if the text is not a well-formed note file.
pub open spec fn sp_decode(text: Seq<char>) -> Option<(FrontmatterView, Seq<char>)> {
    if !sp_match(text, 0, delim()) {
        None
    } else {
        match sp_find_close(text, 3) {
            None => None,
            Some(j) => match sp_parse_meta(text.subrange(3, j + 1)) {
                None => None,
                Some(fm) => Some((fm, strip_nl(text.subrange(j + 4, text.len() as int)))),
            },
        }
    }
}

/// The metadata of a note: its fields minus the body, tags as bare names.
pub open spec fn fm_of(n: NoteView) -> FrontmatterView {
    FrontmatterView {
        id: n.id,
        title: n.title,
        tags: n.tags.map_values(|t: crate::types::TagView| t.name),
        created_at: n.created_at,
        updated_at: n.updated_at,
    }
}

// ---------------------------------------------------------------------------
// The encoder.
// ---------------------------------------------------------------------------

/// Decides whether a string holds a line break.
fn has_break_exec(s: &str) -> (r: bool)
    ensures
        r == has_break(s@),
{
    let len = s.unicode_len();
    let mut i: usize = 0;
    while i < len
        invariant
            len == s@.len(),
            i <= len,
            forall|k: int| 0 <= k < i ==> !(#[trigger] s@[k] == '\n' || s@[k] == '\r'),
        decreases len - i,
    {
        let c = s.get_char(i);
        if c == '\n' || c == '\r' {
            return true;
        }
        i += 1;
    }
    false
}

/// Writes a string's characters as they stand inside single quotes.
fn sq_esc_string(s: &str) -> (r: String)
    ensures
        r@ == sq_esc(s@),
    decreases s@.len(),
{
    let len = s.unicode_len();
    if len == 0 {
        String::new()
    } else {
        let c = s.get_char(0);
        proof {
            reveal_strlit("''");
        }
        let piece: &str = if c == '\'' { "''" } else { s.substring_char(0, 1) };
        proof {
            assert(piece@ =~= sq_char(s@[0]));
        }
        let rest = s.substring_char(1, len);
        proof {
            assert(rest@ =~= s@.drop_first());
        }
        let mut out = String::from_str(piece);
        let tail = sq_esc_string(rest);
        out.append(tail.as_str());
        proof {
            assert(out@ =~= sq_esc(s@));
        }
        out
    }
}

/// Writes a string's characters as they stand inside double quotes.
fn dq_esc_string(s: &str) -> (r: String)
    ensures
        r@ == dq_esc(s@),
    decreases s@.len(),
{
    let len = s.unicode_len();
    if len == 0 {
        String::new()
    } else {
        let c = s.get_char(0);
        proof {
            reveal_strlit("\\\\");
            reveal_strlit("\\\"");
            reveal_strlit("\\n");
            reveal_strlit("\\r");
        }
        let piece: &str = if c == '\\' { "\\\\" }
            else if c == '"' { "\\\"" }
            else if c == '\n' { "\\n" }
            else if c == '\r' { "\\r" }
            else { s.substring_char(0, 1) };
        proof {
            assert(piece@ =~= dq_char(s@[0]));
        }
        let rest = s.substring_char(1, len);
        proof {
            assert(rest@ =~= s@.drop_first());
        }
        let mut out = String::from_str(piece);
        let tail = dq_esc_string(rest);
        out.append(tail.as_str());
        proof {
            assert(out@ =~= dq_esc(s@));
        }
        out
    }
}

/// Writes a string as a quoted scalar.
fn scalar_string(s: &str) -> (r: String)
    ensures
        r@ == scalar_enc(s@),
{
    proof {
        reveal_strlit("'");
        reveal_strlit("\"");
    }
    if has_break_exec(s) {
        let mut out = String::from_str("\"");
        let body = dq_esc_string(s);
        out.append(body.as_str());
        out.append("\"");
        proof {
            assert(out@ =~= dq(s@));
        }
        out
    } else {
        let mut out = String::from_str("'");
        let body = sq_esc_string(s);
        out.append(body.as_str());
        out.append("'");
        proof {
            assert(out@ =~= sq(s@));
        }
        out
    }
}

/// Encodes a note as the full text of its file.  Writing this text to
/// `<id>.md` in the notes directory persists the note.
#[verifier::rlimit(100)]
pub fn encode_note(note: &Note) -> (r: String)
    ensures
        r@ == sp_encode(fm_of(note@), note@.content),
{
    proof {
        reveal_strlit("---\n");
        reveal_strlit("id: ");
        reveal_strlit("\n");
        reveal_strlit("title: ");
        reveal_strlit("tags: []\n");
        reveal_strlit("tags:\n");
        reveal_strlit("- ");
        reveal_strlit("createdAt: ");
        reveal_strlit("updatedAt: ");
        reveal_strlit("---\n\n");
    }
    let mut out = String::from_str("---\n");
    out.append("id: ");
    let id_str = u32_to_string(note.id);
    out.append(id_str.as_str());
    out.append("\n");
    out.append("title: ");
    let title_q = scalar_string(note.title.as_str());
    out.append(title_q.as_str());
    out.append("\n");
    let ghost fm = fm_of(note@);
    if note.tags.len() == 0 {
        out.append("tags: []\n");
        proof {
            assert(fm.tags.len() == 0);
            assert(sp_tags_block(fm.tags) == tags_empty_line());
        }
    } else {
        out.append("tags:\n");
        let ghost items_start = out@;
        let mut i: usize = 0;
        while i < note.tags.len()
            invariant
                i <= note.tags.len(),
                fm == fm_of(note@),
                fm.tags.len() == note.tags.len(),
                forall|k: int| 0 <= k < note.tags.len() ==> fm.tags[k] == note.tags@[k].name@,
                out@ == items_start + sp_tag_items(fm.tags.take(i as int)),
            decreases note.tags.len() - i,
        {
            proof {
                reveal_strlit("- ");
                reveal_strlit("\n");
            }
            out.append("- ");
            let name_q = scalar_string(note.tags[i].name.as_str());
            out.append(name_q.as_str());
            out.append("\n");
            proof {
                lemma_tag_items_push(fm.tags.take(i as int), fm.tags[i as int]);
                assert(fm.tags.take(i as int).push(fm.tags[i as int]) =~= fm.tags.take(
                    i as int + 1,
                ));
                assert(out@ =~= items_start + sp_tag_items(fm.tags.take(i as int + 1)));
            }
            i += 1;
        }
        proof {
            assert(fm.tags.take(note.tags.len() as int) =~= fm.tags);
        }
    }
    out.append("createdAt: ");
    let created_q = scalar_string(note.created_at.as_str());
    out.append(created_q.as_str());
    out.append("\n");
    out.append("updatedAt: ");
    let updated_q = scalar_string(note.updated_at.as_str());
    out.append(updated_q.as_str());
    out.append("\n");
    out.append("---\n\n");
    out.append(note.content.as_str());
    proof {
        assert(out@ =~= sp_encode(fm_of(note@), note@.content));
    }
    out
}

/// Appending one tag to the list appends one item line to the rendering.
#[verifier::rlimit(100)]
proof fn lemma_tag_items_push(tags: Seq<Seq<char>>, x: Seq<char>)
    ensures
        sp_tag_items(tags.push(x)) == sp_tag_items(tags) + item_prefix() + scalar_enc(x)
            + seq!['\n'],
    decreases tags.len(),
{
    if tags.len() == 0 {
        assert(tags.push(x)[0] == x);
        assert(tags.push(x).drop_first() =~= Seq::<Seq<char>>::empty());
        assert(sp_tag_items(Seq::<Seq<char>>::empty()) == Seq::<char>::empty());
        assert(tags =~= Seq::<Seq<char>>::empty());
        assert(sp_tag_items(tags.push(x)) == item_prefix() + scalar_enc(x) + seq!['\n']
            + sp_tag_items(Seq::<Seq<char>>::empty()));
        assert(sp_tag_items(tags.push(x)) =~= sp_tag_items(tags) + item_prefix() + scalar_enc(x)
            + seq!['\n']);
    } else {
        lemma_tag_items_push(tags.drop_first(), x);
        assert(tags.push(x).len() > 0);
        assert(sp_tag_items(tags.push(x)) == item_prefix() + scalar_enc(tags.push(x)[0])
            + seq!['\n'] + sp_tag_items(tags.push(x).drop_first()));
        assert(tags.push(x).drop_first() =~= tags.drop_first().push(x));
        assert(tags.push(x)[0] == tags[0]);
        assert(sp_tag_items(tags.push(x)) == item_prefix() + scalar_enc(tags[0]) + seq!['\n']
            + sp_tag_items(tags.drop_first().push(x)));
        assert(sp_tag_items(tags.drop_first().push(x)) == sp_tag_items(tags.drop_first())
            + item_prefix() + scalar_enc(x) + seq!['\n']);
        assert(sp_tag_items(tags) == item_prefix() + scalar_enc(tags[0]) + seq!['\n']
            + sp_tag_items(tags.drop_first()));
        let a = item_prefix() + scalar_enc(tags[0]) + seq!['\n'];
        let b = sp_tag_items(tags.drop_first());
        let c = item_prefix() + scalar_enc(x) + seq!['\n'];
        assert(sp_tag_items(tags.drop_first().push(x)) =~= b + c);
        assert(sp_tag_items(tags.push(x)) == a + (b + c));
        assert(a + (b + c) =~= (a + b) + c);
        assert(sp_tag_items(tags) + item_prefix() + scalar_enc(x) + seq!['\n'] =~= (a + b) + c);
    }
}

// ---------------------------------------------------------------------------
// The decoder.
// ---------------------------------------------------------------------------

/// A delimiter line found at or after `pos` lies within the text.
proof fn lemma_find_close_bounds(s: Seq<char>, pos: int, j: int)
    requires
        sp_find_close(s, pos) == Some(j),
    ensures
        pos <= j,
        j + 4 <= s.len(),
    decreases s.len() - pos,
{
    if pos < 0 || pos + 4 > s.len() {
    } else if s[pos] == '\n' && s[pos + 1] == '-' && s[pos + 2] == '-' && s[pos + 3] == '-' {
    } else {
        lemma_find_close_bounds(s, pos + 1, j);
    }
}

/// A parsed single-quoted body ends past where it began, within the text.
proof fn lemma_sq_body_end(s: Seq<char>, pos: int)
    requires
        sp_sq_body(s, pos) is Some,
    ensures
        pos < sp_sq_body(s, pos)->Some_0.1 <= s.len(),
    decreases s.len() - pos,
{
    if pos < 0 || pos >= s.len() {
    } else if s[pos] == '\'' {
        if pos + 1 < s.len() && s[pos + 1] == '\'' {
            lemma_sq_body_end(s, pos + 2);
        }
    } else if s[pos] == '\n' || s[pos] == '\r' {
    } else {
        lemma_sq_body_end(s, pos + 1);
    }
}

/// A parsed double-quoted body ends past where it began, within the text.
proof fn lemma_dq_body_end(s: Seq<char>, pos: int)
    requires
        sp_dq_body(s, pos) is Some,
    ensures
        pos < sp_dq_body(s, pos)->Some_0.1 <= s.len(),
    decreases s.len() - pos,
{
    if pos < 0 || pos >= s.len() {
    } else if s[pos] == '"' {
    } else if s[pos] == '\\' {
        if pos + 1 < s.len() && is_dq_code(s[pos + 1]) {
            lemma_dq_body_end(s, pos + 2);
        }
    } else if s[pos] == '\n' || s[pos] == '\r' {
    } else {
        lemma_dq_body_end(s, pos + 1);
    }
}

/// A parsed scalar ends no earlier than where it began, within the text.
proof fn lemma_scalar_end(s: Seq<char>, pos: int)
    requires
        sp_scalar(s, pos) is Some,
    ensures
        pos <= sp_scalar(s, pos)->Some_0.1 <= s.len(),
{
    if 0 <= pos <= s.len() {
        if pos < s.len() && s[pos] == '\'' {
            lemma_sq_body_end(s, pos + 1);
        } else if pos < s.len() && s[pos] == '"' {
            lemma_dq_body_end(s, pos + 1);
        } else {
            lemma_line_end_bounds(s, pos);
        }
    }
}

/// The line end lies between `pos` and the end of the text.
proof fn lemma_line_end_bounds(s: Seq<char>, pos: int)
    requires
        0 <= pos <= s.len(),
    ensures
        pos <= sp_line_end(s, pos) <= s.len(),
    decreases s.len() - pos,
{
    if pos < s.len() && s[pos] != '\n' {
        lemma_line_end_bounds(s, pos + 1);
    }
}

/// Finds the first delimiter line at or after `start`.
fn find_close(s: &str, start: usize) -> (r: Option<usize>)
    ensures
        match r {
            Some(j) => sp_find_close(s@, start as int) == Some(j as int),
            None => sp_find_close(s@, start as int) is None,
        },
{
    let len = s.unicode_len();
    if len < 4 || start > len - 4 {
        return None;
    }
    let mut pos = start;
    while pos <= len - 4
        invariant
            4 <= len == s@.len(),
            start <= pos <= len - 3,
            sp_find_close(s@, start as int) == sp_find_close(s@, pos as int),
        decreases len - pos,
    {
        if s.get_char(pos) == '\n' && s.get_char(pos + 1) == '-' && s.get_char(pos + 2) == '-'
            && s.get_char(pos + 3) == '-' {
            return Some(pos);
        }
        pos += 1;
    }
    None
}

/// Decides whether a character is a decimal digit.
fn digit_exec(c: char) -> (b: bool)
    ensures
        b == is_digit(c),
{
    let u = c as u32;
    48 <= u && u <= 57
}

/// Parses an unsigned 32-bit decimal at `pos`.
fn parse_u32_at(s: &str, pos: usize) -> (r: Option<(u32, usize)>)
    ensures
        match r {
            Some(v) => sp_u32(s@, pos as int) == Some((v.0, v.1 as int)),
            None => sp_u32(s@, pos as int) is None,
        },
{
    let len = s.unicode_len();
    if pos >= len {
        return None;
    }
    let mut end = pos;
    while end < len && digit_exec(s.get_char(end))
        invariant
            len == s@.len(),
            pos <= end <= len,
            sp_digits_end(s@, pos as int) == sp_digits_end(s@, end as int),
            forall|k: int| pos <= k < end ==> is_digit(#[trigger] s@[k]),
        decreases len - end,
    {
        end += 1;
    }
    proof {
        assert(sp_digits_end(s@, end as int) == end as int);
        assert(all_digits(s@.subrange(pos as int, end as int)));
    }
    if end == pos {
        return None;
    }
    let ghost run = s@.subrange(pos as int, end as int);
    let mut v: u32 = 0;
    let mut k = pos;
    while k < end
        invariant
            len == s@.len(),
            pos <= k <= end <= len,
            all_digits(run),
            run == s@.subrange(pos as int, end as int),
            sp_digits_end(s@, pos as int) == end as int,
            forall|j: int| pos <= j < end ==> is_digit(#[trigger] s@[j]),
            v == digits_val(s@.subrange(pos as int, k as int)),
        decreases end - k,
    {
        let c = s.get_char(k);
        let d = (c as u32) - 48;
        if v > (u32::MAX - d) / 10 {
            proof {
                let m = u32::MAX as int;
                assert(v * 10 + d > m) by (nonlinear_arith)
                    requires
                        v > (m - d) / 10,
                        0 <= d <= 9,
                        m == u32::MAX as int,
                        v >= 0,
                {}
                assert(s@.subrange(pos as int, k as int + 1).drop_last() =~= s@.subrange(
                    pos as int,
                    k as int,
                ));
                assert(digits_val(s@.subrange(pos as int, k as int + 1)) == v * 10 + d);
                assert(run.take(k as int + 1 - pos) =~= s@.subrange(pos as int, k as int + 1));
                lemma_digits_val_prefix_le(run, k as int + 1 - pos);
                assert(digits_val(run) > u32::MAX);
                assert(sp_u32(s@, pos as int) is None);
            }
            return None;
        }
        v = v * 10 + d;
        proof {
            assert(s@.subrange(pos as int, k as int + 1).drop_last() =~= s@.subrange(
                pos as int,
                k as int,
            ));
        }
        k += 1;
    }
    proof {
        assert(s@.subrange(pos as int, end as int) == run);
    }
    Some((v, end))
}

/// Parses the inside of a single-quoted scalar, from just past the opening
/// quote.
fn parse_sq_body(s: &str, pos: usize) -> (r: Option<(String, usize)>)
    ensures
        match r {
            Some(v) => sp_sq_body(s@, pos as int) == Some((v.0@, v.1 as int)),
            None => sp_sq_body(s@, pos as int) is None,
        },
    decreases s@.len() - pos,
{
    let len = s.unicode_len();
    if pos >= len {
        return None;
    }
    let c = s.get_char(pos);
    if c == '\'' {
        if pos + 1 < len && s.get_char(pos + 1) == '\'' {
            match parse_sq_body(s, pos + 2) {
                Some(te) => {
                    let (t, e) = te;
                    proof {
                        reveal_strlit("'");
                    }
                    let mut out = String::from_str("'");
                    out.append(t.as_str());
                    proof {
                        assert(out@ =~= seq!['\''] + t@);
                    }
                    return Some((out, e));
                },
                None => { return None; },
            }
        }
        return Some((String::new(), pos + 1));
    }
    if c == '\n' || c == '\r' {
        return None;
    }
    match parse_sq_body(s, pos + 1) {
        Some(te) => {
            let (t, e) = te;
            let piece = s.substring_char(pos, pos + 1);
            proof {
                assert(piece@ =~= seq![s@[pos as int]]);
            }
            let mut out = String::from_str(piece);
            out.append(t.as_str());
            proof {
                assert(out@ =~= seq![s@[pos as int]] + t@);
            }
            Some((out, e))
        },
        None => None,
    }
}

/// Parses the inside of a double-quoted scalar, from just past the opening
/// quote.
fn parse_dq_body(s: &str, pos: usize) -> (r: Option<(String, usize)>)
    ensures
        match r {
            Some(v) => sp_dq_body(s@, pos as int) == Some((v.0@, v.1 as int)),
            None => sp_dq_body(s@, pos as int) is None,
        },
    decreases s@.len() - pos,
{
    let len = s.unicode_len();
    if pos >= len {
        return None;
    }
    let c = s.get_char(pos);
    if c == '"' {
        return Some((String::new(), pos + 1));
    }
    if c == '\\' {
        if pos + 1 < len {
            let c2 = s.get_char(pos + 1);
            if c2 == '\\' || c2 == '"' || c2 == 'n' || c2 == 'r' || c2 == 't' {
                match parse_dq_body(s, pos + 2) {
                    Some(te) => {
                        let (t, e) = te;
                        proof {
                            reveal_strlit("\\");
                            reveal_strlit("\"");
                            reveal_strlit("\n");
                            reveal_strlit("\r");
                            reveal_strlit("\t");
                        }
                        let piece: &str = if c2 == 'n' { "\n" }
                            else if c2 == 'r' { "\r" }
                            else if c2 == 't' { "\t" }
                            else if c2 == '\\' { "\\" }
                            else { "\"" };
                        proof {
                            assert(piece@ =~= seq![undq_char(s@[pos as int + 1])]);
                        }
                        let mut out = String::from_str(piece);
                        out.append(t.as_str());
                        proof {
                            assert(out@ =~= seq![undq_char(s@[pos as int + 1])] + t@);
                        }
                        return Some((out, e));
                    },
                    None => { return None; },
                }
            }
        }
        return None;
    }
    if c == '\n' || c == '\r' {
        return None;
    }
    match parse_dq_body(s, pos + 1) {
        Some(te) => {
            let (t, e) = te;
            let piece = s.substring_char(pos, pos + 1);
            proof {
                assert(piece@ =~= seq![s@[pos as int]]);
            }
            let mut out = String::from_str(piece);
            out.append(t.as_str());
            proof {
                assert(out@ =~= seq![s@[pos as int]] + t@);
            }
            Some((out, e))
        },
        None => None,
    }
}

/// Finds the end of the current line.
fn line_end_exec(s: &str, pos: usize) -> (r: usize)
    requires
        pos <= s@.len(),
    ensures
        r as int == sp_line_end(s@, pos as int),
        pos <= r <= s@.len(),
{
    let len = s.unicode_len();
    let mut e = pos;
    while e < len && s.get_char(e) != '\n'
        invariant
            len == s@.len(),
            pos <= e <= len,
            sp_line_end(s@, pos as int) == sp_line_end(s@, e as int),
        decreases len - e,
    {
        e += 1;
    }
    e
}

/// Parses a scalar in line context.
fn parse_scalar(s: &str, pos: usize) -> (r: Option<(String, usize)>)
    requires
        pos <= s@.len(),
    ensures
        match r {
            Some(v) => sp_scalar(s@, pos as int) == Some((v.0@, v.1 as int)),
            None => sp_scalar(s@, pos as int) is None,
        },
{
    let len = s.unicode_len();
    if pos < len && s.get_char(pos) == '\'' {
        parse_sq_body(s, pos + 1)
    } else if pos < len && s.get_char(pos) == '"' {
        parse_dq_body(s, pos + 1)
    } else {
        let e = line_end_exec(s, pos);
        let v = String::from_str(s.substring_char(pos, e));
        Some((v, e))
    }
}

/// Parses block-style tag list items while lines begin with `- `.
fn parse_items(s: &str, pos: usize) -> (r: Option<(Vec<String>, usize)>)
    ensures
        match r {
            Some(v) => sp_items(s@, pos as int) == Some((v.0.deep_view(), v.1 as int)),
            None => sp_items(s@, pos as int) is None,
        },
    decreases s@.len() - pos,
{
    proof {
        reveal_strlit("- ");
        assert("- "@ =~= item_prefix());
    }
    let len = s.unicode_len();
    if match_at(s, pos, "- ") {
        proof {
            lemma_match_bounds(s@, pos as int, item_prefix());
            assert(pos + 2 <= len);
        }
        match parse_scalar(s, pos + 2) {
            Some(ne) => {
                let (name, e) = ne;
                proof {
                    lemma_scalar_end(s@, pos as int + 2);
                }
                if e < len && s.get_char(e) == '\n' {
                    match parse_items(s, e + 1) {
                        Some(re) => {
                            let (mut rest, e2) = re;
                            let ghost rest_view = rest.deep_view();
                            let mut v: Vec<String> = Vec::new();
                            v.push(name);
                            v.append(&mut rest);
                            proof {
                                assert(v.deep_view() =~= seq![name@] + rest_view);
                            }
                            Some((v, e2))
                        },
                        None => None,
                    }
                } else {
                    None
                }
            },
            None => None,
        }
    } else {
        let r: Vec<String> = Vec::new();
        proof {
            assert(r.deep_view() =~= Seq::<Seq<char>>::empty());
        }
        Some((r, pos))
    }
}

/// Skips spaces.
fn skip_sp_exec(s: &str, pos: usize) -> (r: usize)
    requires
        pos <= s@.len(),
    ensures
        r as int == sp_skip_sp(s@, pos as int),
        pos <= r <= s@.len(),
{
    let len = s.unicode_len();
    let mut p = pos;
    while p < len && s.get_char(p) == ' '
        invariant
            len == s@.len(),
            pos <= p <= len,
            sp_skip_sp(s@, pos as int) == sp_skip_sp(s@, p as int),
        decreases len - p,
    {
        p += 1;
    }
    p
}

/// Parses one scalar in flow context.
fn parse_flow_scalar(s: &str, pos: usize) -> (r: Option<(String, usize)>)
    requires
        pos <= s@.len(),
    ensures
        match r {
            Some(v) => sp_flow_scalar(s@, pos as int) == Some((v.0@, v.1 as int)),
            None => sp_flow_scalar(s@, pos as int) is None,
        },
{
    let len = s.unicode_len();
    if pos < len && s.get_char(pos) == '\'' {
        return parse_sq_body(s, pos + 1);
    }
    if pos < len && s.get_char(pos) == '"' {
        return parse_dq_body(s, pos + 1);
    }
    let mut e = pos;
    while e < len && s.get_char(e) != ',' && s.get_char(e) != ']' && s.get_char(e) != '\n'
        invariant
            len == s@.len(),
            pos <= e <= len,
            sp_flow_end(s@, pos as int) == sp_flow_end(s@, e as int),
        decreases len - e,
    {
        e += 1;
    }
    if !(e < len && (s.get_char(e) == ',' || s.get_char(e) == ']')) {
        return None;
    }
    // Trim trailing spaces off the plain value.
    let ghost raw = s@.subrange(pos as int, e as int);
    let mut t = e;
    while t > pos && s.get_char(t - 1) == ' '
        invariant
            len == s@.len(),
            pos <= t <= e <= len,
            raw == s@.subrange(pos as int, e as int),
            rstrip_sp(raw) == rstrip_sp(s@.subrange(pos as int, t as int)),
        decreases t,
    {
        proof {
            assert(s@.subrange(pos as int, t as int).last() == s@[t as int - 1]);
            assert(s@.subrange(pos as int, t as int).drop_last() =~= s@.subrange(
                pos as int,
                t as int - 1,
            ));
        }
        t -= 1;
    }
    proof {
        assert(rstrip_sp(s@.subrange(pos as int, t as int)) == s@.subrange(pos as int, t as int));
    }
    let v = String::from_str(s.substring_char(pos, t));
    Some((v, e))
}

/// Parses the items of a non-empty flow list.
fn parse_flow_items(s: &str, pos: usize) -> (r: Option<(Vec<String>, usize)>)
    requires
        pos <= s@.len(),
    ensures
        match r {
            Some(v) => sp_flow_items(s@, pos as int) == Some((v.0.deep_view(), v.1 as int)),
            None => sp_flow_items(s@, pos as int) is None,
        },
    decreases s@.len() - pos,
{
    let len = s.unicode_len();
    match parse_flow_scalar(s, pos) {
        None => None,
        Some(ve) => {
            let (v, e) = ve;
            proof {
                if pos < s@.len() && s@[pos as int] == '\'' {
                    lemma_sq_body_end(s@, pos as int + 1);
                } else if pos < s@.len() && s@[pos as int] == '"' {
                    lemma_dq_body_end(s@, pos as int + 1);
                } else {
                    lemma_flow_end_bounds(s@, pos as int);
                }
            }
            let q = skip_sp_exec(s, e);
            if q < len && s.get_char(q) == ',' {
                let q2 = skip_sp_exec(s, q + 1);
                if q2 > pos {
                    match parse_flow_items(s, q2) {
                        Some(re) => {
                            let (mut rest, e2) = re;
                            let ghost rest_view = rest.deep_view();
                            let mut out: Vec<String> = Vec::new();
                            out.push(v);
                            out.append(&mut rest);
                            proof {
                                assert(out.deep_view() =~= seq![v@] + rest_view);
                            }
                            Some((out, e2))
                        },
                        None => None,
                    }
                } else {
                    None
                }
            } else if q < len && s.get_char(q) == ']' {
                let mut out: Vec<String> = Vec::new();
                out.push(v);
                proof {
                    assert(out.deep_view() =~= seq![v@]);
                }
                Some((out, q + 1))
            } else {
                None
            }
        },
    }
}

/// A flow plain scalar ends within the text, no earlier than it began.
proof fn lemma_flow_end_bounds(s: Seq<char>, pos: int)
    requires
        0 <= pos <= s.len(),
    ensures
        pos <= sp_flow_end(s, pos) <= s.len(),
    decreases s.len() - pos,
{
    if pos < s.len() && s[pos] != ',' && s[pos] != ']' && s[pos] != '\n' {
        lemma_flow_end_bounds(s, pos + 1);
    }
}

/// Parses a flow list from just past the opening bracket.
fn parse_flow(s: &str, pos: usize) -> (r: Option<(Vec<String>, usize)>)
    requires
        pos <= s@.len(),
    ensures
        match r {
            Some(v) => sp_flow(s@, pos as int) == Some((v.0.deep_view(), v.1 as int)),
            None => sp_flow(s@, pos as int) is None,
        },
{
    let len = s.unicode_len();
    let p = skip_sp_exec(s, pos);
    if p < len && s.get_char(p) == ']' {
        let r: Vec<String> = Vec::new();
        proof {
            assert(r.deep_view() =~= Seq::<Seq<char>>::empty());
        }
        Some((r, p + 1))
    } else {
        parse_flow_items(s, p)
    }
}

/// Parses the whole metadata segment.
fn parse_meta(m: &str) -> (r: Option<Frontmatter>)
    ensures
        match r {
            Some(fm) => sp_parse_meta(m@) == Some(fm@),
            None => sp_parse_meta(m@) is None,
        },
{
    let len = m.unicode_len();
    if len == 0 || m.get_char(0) != '\n' {
        return None;
    }
    proof {
        reveal_strlit("id: ");
        assert("id: "@ =~= key_id());
    }
    if !match_at(m, 1, "id: ") {
        return None;
    }
    let (id, p1) = match parse_u32_at(m, 5) {
        Some(x) => x,
        None => { return None; },
    };
    if !(p1 < len && m.get_char(p1) == '\n') {
        return None;
    }
    let ghost sp_p1 = (p1 + 1) as int;
    proof {
        assert(sp_id_line(m@, 1) == Some((id, sp_p1)));
    }
    proof {
        reveal_strlit("title: ");
        assert("title: "@ =~= key_title());
    }
    if !match_at(m, p1 + 1, "title: ") {
        return None;
    }
    proof {
        lemma_match_bounds(m@, p1 as int + 1, key_title());
    }
    let (title, p2) = match parse_scalar(m, p1 + 1 + 7) {
        Some(x) => x,
        None => { return None; },
    };
    if !(p2 < len && m.get_char(p2) == '\n') {
        return None;
    }
    let ghost sp_p2 = (p2 + 1) as int;
    proof {
        assert(sp_keyed_scalar(m@, sp_p1, key_title()) == Some((title@, sp_p2)));
    }
    proof {
        reveal_strlit("tags:\n");
        reveal_strlit("tags: [");
        assert("tags:\n"@ =~= tags_header());
        assert("tags: ["@ =~= tags_flow_open());
    }
    let tags: Vec<String>;
    let p3: usize;
    if match_at(m, p2 + 1, "tags:\n") {
        proof {
            lemma_match_bounds(m@, p2 as int + 1, tags_header());
        }
        match parse_items(m, p2 + 1 + 6) {
            Some(x) => {
                tags = x.0;
                p3 = x.1;
            },
            None => { return None; },
        }
        proof {
            assert(sp_tags_part(m@, sp_p2) == Some((tags.deep_view(), p3 as int)));
        }
    } else if match_at(m, p2 + 1, "tags: [") {
        proof {
            lemma_match_bounds(m@, p2 as int + 1, tags_flow_open());
        }
        match parse_flow(m, p2 + 1 + 7) {
            Some(x) => {
                let (flow_tags, e) = x;
                if !(e < len && m.get_char(e) == '\n') {
                    return None;
                }
                tags = flow_tags;
                p3 = e + 1;
            },
            None => { return None; },
        }
        proof {
            assert(sp_tags_part(m@, sp_p2) == Some((tags.deep_view(), p3 as int)));
        }
    } else {
        return None;
    }
    proof {
        reveal_strlit("createdAt: ");
        assert("createdAt: "@ =~= key_created());
    }
    if !match_at(m, p3, "createdAt: ") {
        return None;
    }
    proof {
        lemma_match_bounds(m@, p3 as int, key_created());
    }
    let (created, p4) = match parse_scalar(m, p3 + 11) {
        Some(x) => x,
        None => { return None; },
    };
    if !(p4 < len && m.get_char(p4) == '\n') {
        return None;
    }
    let ghost sp_p4 = (p4 + 1) as int;
    proof {
        assert(sp_keyed_scalar(m@, p3 as int, key_created()) == Some((created@, sp_p4)));
    }
    proof {
        reveal_strlit("updatedAt: ");
        assert("updatedAt: "@ =~= key_updated());
    }
    if !match_at(m, p4 + 1, "updatedAt: ") {
        return None;
    }
    proof {
        lemma_match_bounds(m@, p4 as int + 1, key_updated());
    }
    let (updated, p5) = match parse_scalar(m, p4 + 1 + 11) {
        Some(x) => x,
        None => { return None; },
    };
    if !(p5 < len && m.get_char(p5) == '\n') {
        return None;
    }
    proof {
        assert(sp_keyed_scalar(m@, sp_p4, key_updated()) == Some((updated@, p5 + 1 as int)));
    }
    if p5 + 1 != len {
        return None;
    }
    let fm = Frontmatter { id, title, tags, created_at: created, updated_at: updated };
    proof {
        assert(sp_parse_meta(m@) == Some(fm@));
    }
    Some(fm)
}

/// Decodes the text of a note file into its metadata block and body.
///
/// Fails with `InvalidFrontmatter` when the text does not open with the
/// delimiter or no delimiter line follows, and with `Metadata` when the
/// segment between the delimiters is not a well-formed metadata block.
pub fn parse_markdown_content(text: &str) -> (r: Result<(Frontmatter, String), NoteError>)
    ensures
        match sp_decode(text@) {
            Some(p) => r is Ok && r->Ok_0.0@ == p.0 && r->Ok_0.1@ == p.1,
            None => r is Err && (if sp_shape(text@) {
                r->Err_0 is Metadata
            } else {
                r->Err_0 is InvalidFrontmatter
            }),
        },
{
    proof {
        reveal_strlit("---");
        assert("---"@ =~= delim());
    }
    if !match_at(text, 0, "---") {
        return Err(NoteError::InvalidFrontmatter);
    }
    let j = match find_close(text, 3) {
        Some(j) => j,
        None => { return Err(NoteError::InvalidFrontmatter); },
    };
    let len = text.unicode_len();
    proof {
        lemma_find_close_bounds(text@, 3, j as int);
    }
    let meta = text.substring_char(3, j + 1);
    let fm = match parse_meta(meta) {
        Some(fm) => fm,
        None => { return Err(NoteError::Metadata); },
    };
    let mut k = j + 4;
    while k < len && text.get_char(k) == '\n'
        invariant
            len == text@.len(),
            j + 4 <= k <= len,
            strip_nl(text@.subrange(j as int + 4, len as int)) == strip_nl(
                text@.subrange(k as int, len as int),
            ),
        decreases len - k,
    {
        proof {
            assert(text@.subrange(k as int, len as int).drop_first() =~= text@.subrange(
                k as int + 1,
                len as int,
            ));
        }
        k += 1;
    }
    let body = text.substring_char(k, len);
    proof {
        assert(strip_nl(text@.subrange(k as int, len as int)) == body@);
    }
    Ok((fm, String::from_str(body)))
}

// ---------------------------------------------------------------------------
// Decoding inverts encoding.
// ---------------------------------------------------------------------------

/// A matched literal lies within the text's bounds.
proof fn lemma_match_bounds(s: Seq<char>, pos: int, lit: Seq<char>)
    requires
        sp_match(s, pos, lit),
    ensures
        0 <= pos,
        pos + lit.len() <= s.len(),
{
    reveal(sp_match);
}

/// Characters of a matched literal read back from the text.
proof fn lemma_match_index(s: Seq<char>, pos: int, lit: Seq<char>)
    requires
        sp_match(s, pos, lit),
    ensures
        0 <= pos,
        pos + lit.len() <= s.len(),
        forall|k: int| pos <= k < pos + lit.len() ==> #[trigger] s[k] == lit[k - pos],
{
    reveal(sp_match);
    assert forall|k: int| pos <= k < pos + lit.len() implies #[trigger] s[k] == lit[k - pos] by {
        assert(s.subrange(pos, pos + lit.len())[k - pos] == s[k]);
    }
}

/// One character of a matched literal read back from the text.
proof fn lemma_match_get(s: Seq<char>, pos: int, lit: Seq<char>, k: int)
    requires
        sp_match(s, pos, lit),
        0 <= k < lit.len(),
    ensures
        0 <= pos,
        pos + lit.len() <= s.len(),
        s[pos + k] == lit[k],
{
    reveal(sp_match);
    assert(s.subrange(pos, pos + lit.len())[k] == s[pos + k]);
}

/// A match of a concatenation splits into matches of its parts.
proof fn lemma_match_split(s: Seq<char>, pos: int, a: Seq<char>, b: Seq<char>)
    requires
        sp_match(s, pos, a + b),
    ensures
        sp_match(s, pos, a),
        sp_match(s, pos + a.len(), b),
{
    reveal(sp_match);
    lemma_match_index(s, pos, a + b);
    assert(s.subrange(pos, pos + a.len()) =~= a) by {
        assert forall|k: int| 0 <= k < a.len() implies s.subrange(pos, pos + a.len())[k]
            == a[k] by {
            assert(s[pos + k] == (a + b)[k]);
        }
    }
    assert(s.subrange(pos + a.len(), pos + a.len() + b.len()) =~= b) by {
        assert forall|k: int| 0 <= k < b.len() implies s.subrange(
            pos + a.len(),
            pos + a.len() + b.len(),
        )[k] == b[k] by {
            assert(s[pos + a.len() + k] == (a + b)[a.len() + k]);
        }
    }
}

/// Parsing a single-quoted body where one was written recovers the string,
/// provided the character after the closing quote is not another quote.
proof fn lemma_sq_body_inverts(s: Seq<char>, pos: int, x: Seq<char>)
    requires
        !has_break(x),
        sp_match(s, pos, sq_esc(x) + seq!['\'']),
        pos + sq_esc(x).len() + 1 == s.len() || s[pos + sq_esc(x).len() + 1] != '\'',
    ensures
        sp_sq_body(s, pos) == Some((x, pos + sq_esc(x).len() + 1)),
    decreases x.len(),
{
    if x.len() == 0 {
        assert(sq_esc(x) + seq!['\''] =~= seq!['\'']);
        lemma_match_index(s, pos, seq!['\'']);
        assert(s[pos] == '\'');
        assert(sp_sq_body(s, pos) == Some((Seq::<char>::empty(), pos + 1)));
        assert(x =~= Seq::<char>::empty());
    } else {
        let c = x[0];
        let rest = x.drop_first();
        assert(!has_break(rest)) by {
            if has_break(rest) {
                let i = choose|i: int|
                    0 <= i < rest.len() && (#[trigger] rest[i] == '\n' || rest[i] == '\r');
                assert(x[i + 1] == rest[i]);
                assert(has_break(x));
            }
        }
        assert(c != '\n' && c != '\r') by {
            if c == '\n' || c == '\r' {
                assert(has_break(x));
            }
        }
        assert(sq_esc(x) == sq_char(c) + sq_esc(rest));
        assert(sq_esc(x) + seq!['\''] =~= sq_char(c) + (sq_esc(rest) + seq!['\'']));
        lemma_match_split(s, pos, sq_char(c), sq_esc(rest) + seq!['\'']);
        lemma_match_index(s, pos, sq_char(c));
        lemma_sq_body_inverts(s, pos + sq_char(c).len(), rest);
        if c == '\'' {
            assert(s[pos] == '\'');
            assert(s[pos + 1] == '\'');
            assert(sp_sq_body(s, pos + 2) == Some((rest, pos + 2 + sq_esc(rest).len() + 1)));
            assert(seq!['\''] + rest =~= x);
        } else {
            assert(sq_char(c) =~= seq![c]);
            assert(s[pos] == c);
            assert(sp_sq_body(s, pos + 1) == Some((rest, pos + 1 + sq_esc(rest).len() + 1)));
            assert(seq![s[pos]] + rest =~= x);
        }
    }
}

/// Parsing a double-quoted body where one was written recovers the string.
proof fn lemma_dq_body_inverts(s: Seq<char>, pos: int, x: Seq<char>)
    requires
        sp_match(s, pos, dq_esc(x) + seq!['"']),
    ensures
        sp_dq_body(s, pos) == Some((x, pos + dq_esc(x).len() + 1)),
    decreases x.len(),
{
    if x.len() == 0 {
        assert(dq_esc(x) + seq!['"'] =~= seq!['"']);
        lemma_match_index(s, pos, seq!['"']);
        assert(s[pos] == '"');
        assert(sp_dq_body(s, pos) == Some((Seq::<char>::empty(), pos + 1)));
        assert(x =~= Seq::<char>::empty());
    } else {
        let c = x[0];
        let rest = x.drop_first();
        assert(dq_esc(x) == dq_char(c) + dq_esc(rest));
        assert(dq_esc(x) + seq!['"'] =~= dq_char(c) + (dq_esc(rest) + seq!['"']));
        lemma_match_split(s, pos, dq_char(c), dq_esc(rest) + seq!['"']);
        lemma_match_index(s, pos, dq_char(c));
        lemma_dq_body_inverts(s, pos + dq_char(c).len(), rest);
        if c == '\\' || c == '"' || c == '\n' || c == '\r' {
            let code = dq_char(c)[1];
            assert(s[pos] == '\\');
            assert(s[pos + 1] == code);
            assert(is_dq_code(code));
            assert(undq_char(code) == c);
            assert(sp_dq_body(s, pos + 2) == Some((rest, pos + 2 + dq_esc(rest).len() + 1)));
            assert(seq![undq_char(s[pos + 1])] + rest =~= x);
        } else {
            assert(dq_char(c) =~= seq![c]);
            assert(s[pos] == c);
            assert(sp_dq_body(s, pos + 1) == Some((rest, pos + 1 + dq_esc(rest).len() + 1)));
            assert(seq![s[pos]] + rest =~= x);
        }
    }
}

/// Parsing a scalar where one was written recovers the string, provided the
/// character after it is not a single quote (in the metadata it is always a
/// newline).
proof fn lemma_scalar_inverts(s: Seq<char>, pos: int, x: Seq<char>)
    requires
        sp_match(s, pos, scalar_enc(x)),
        pos + scalar_enc(x).len() == s.len() || s[pos + scalar_enc(x).len()] != '\'',
    ensures
        sp_scalar(s, pos) == Some((x, pos + scalar_enc(x).len())),
{
    lemma_match_bounds(s, pos, scalar_enc(x));
    if has_break(x) {
        assert(dq(x) =~= seq!['"'] + (dq_esc(x) + seq!['"']));
        lemma_match_split(s, pos, seq!['"'], dq_esc(x) + seq!['"']);
        lemma_match_index(s, pos, seq!['"']);
        lemma_dq_body_inverts(s, pos + 1, x);
    } else {
        assert(sq(x) =~= seq!['\''] + (sq_esc(x) + seq!['\'']));
        lemma_match_split(s, pos, seq!['\''], sq_esc(x) + seq!['\'']);
        lemma_match_index(s, pos, seq!['\'']);
        lemma_sq_body_inverts(s, pos + 1, x);
    }
}

/// Parsing tag items where the item lines were written recovers the tag
/// names, provided the next character is not a dash.
proof fn lemma_items_invert(s: Seq<char>, pos: int, tags: Seq<Seq<char>>)
    requires
        0 <= pos,
        sp_match(s, pos, sp_tag_items(tags)),
        pos + sp_tag_items(tags).len() == s.len() || s[pos + sp_tag_items(tags).len()] != '-',
    ensures
        sp_items(s, pos) == Some((tags, pos + sp_tag_items(tags).len())),
    decreases tags.len(),
{
    let end = pos + sp_tag_items(tags).len();
    if tags.len() == 0 {
        assert(sp_tag_items(tags) =~= Seq::<char>::empty());
        assert(!sp_match(s, pos, item_prefix())) by {
            if sp_match(s, pos, item_prefix()) {
                lemma_match_index(s, pos, item_prefix());
                assert(s[pos] == '-');
            }
        }
        assert(sp_items(s, pos) == Some((Seq::<Seq<char>>::empty(), pos)));
        assert(tags =~= Seq::<Seq<char>>::empty());
    } else {
        let t0 = tags[0];
        let restt = tags.drop_first();
        assert(sp_tag_items(tags) == item_prefix() + scalar_enc(t0) + seq!['\n'] + sp_tag_items(
            restt,
        ));
        assert(sp_tag_items(tags) =~= item_prefix() + (scalar_enc(t0) + (seq!['\n']
            + sp_tag_items(restt))));
        lemma_match_split(s, pos, item_prefix(), scalar_enc(t0) + (seq!['\n'] + sp_tag_items(
            restt,
        )));
        lemma_match_split(s, pos + 2, scalar_enc(t0), seq!['\n'] + sp_tag_items(restt));
        let pq = pos + 2 + scalar_enc(t0).len();
        lemma_match_split(s, pq, seq!['\n'], sp_tag_items(restt));
        lemma_match_get(s, pq, seq!['\n'], 0);
        assert(s[pq] == '\n');
        lemma_scalar_inverts(s, pos + 2, t0);
        lemma_items_invert(s, pq + 1, restt);
        assert(sp_items(s, pos) == Some((seq![t0] + restt, end)));
        assert(seq![t0] + restt =~= tags);
    }
}

/// After any newline inside `s`, what follows is not a dash, or it is the
/// `- ` of a list item: no delimiter line can start inside `s`.
pub open spec fn nl_safe(s: Seq<char>) -> bool {
    forall|k: int|
        0 <= k && k + 1 < s.len() && #[trigger] s[k] == '\n' ==> (s[k + 1] != '-' || (k + 2
            < s.len() && s[k + 2] == ' '))
}

/// No newline at all occurs in `s`.
pub open spec fn no_nl(s: Seq<char>) -> bool {
    forall|i: int| 0 <= i < s.len() ==> #[trigger] s[i] != '\n'
}

/// Concatenation stays newline-safe when the junction is.
proof fn lemma_nl_safe_concat(a: Seq<char>, b: Seq<char>)
    requires
        nl_safe(a),
        nl_safe(b),
        (a.len() > 0 && b.len() > 0 && a.last() == '\n') ==> (b[0] != '-' || (b.len() > 1 && b[1]
            == ' ')),
    ensures
        nl_safe(a + b),
{
    assert forall|k: int| 0 <= k && k + 1 < (a + b).len() && #[trigger] (a + b)[k]
        == '\n' implies ((a + b)[k + 1] != '-' || (k + 2 < (a + b).len() && (a + b)[k + 2]
        == ' ')) by {
        if k + 1 < a.len() {
            assert((a + b)[k] == a[k]);
            assert((a + b)[k + 1] == a[k + 1]);
            if a[k + 1] == '-' {
                assert(k + 2 < a.len() && a[k + 2] == ' ');
                assert((a + b)[k + 2] == a[k + 2]);
            }
        } else if k + 1 == a.len() {
            assert((a + b)[k] == a[k]);
            assert(a[k] == a.last());
            assert((a + b)[k + 1] == b[0]);
            if b[0] == '-' {
                assert(b.len() > 1 && b[1] == ' ');
                assert((a + b)[k + 2] == b[1]);
            }
        } else {
            assert((a + b)[k] == b[k - a.len()]);
            assert((a + b)[k + 1] == b[k + 1 - a.len()]);
            if b[k + 1 - a.len()] == '-' {
                assert(k + 2 - a.len() < b.len() && b[k + 2 - a.len()] == ' ');
                assert((a + b)[k + 2] == b[k + 2 - a.len()]);
            }
        }
    }
}

/// A sequence without newlines is trivially newline-safe.
proof fn lemma_no_nl_safe(s: Seq<char>)
    requires
        no_nl(s),
    ensures
        nl_safe(s),
{
}

/// The characters written inside single quotes hold no line break.
proof fn lemma_sq_esc_no_nl(x: Seq<char>)
    requires
        !has_break(x),
    ensures
        no_nl(sq_esc(x)),
    decreases x.len(),
{
    if x.len() > 0 {
        assert(!has_break(x.drop_first())) by {
            if has_break(x.drop_first()) {
                let i = choose|i: int|
                    0 <= i < x.drop_first().len() && (#[trigger] x.drop_first()[i] == '\n'
                        || x.drop_first()[i] == '\r');
                assert(x[i + 1] == x.drop_first()[i]);
                assert(has_break(x));
            }
        }
        lemma_sq_esc_no_nl(x.drop_first());
        assert(x[0] != '\n') by {
            if x[0] == '\n' {
                assert(has_break(x));
            }
        }
        assert(sq_esc(x) == sq_char(x[0]) + sq_esc(x.drop_first()));
        assert(no_nl(sq_char(x[0])));
        assert forall|i: int| 0 <= i < sq_esc(x).len() implies #[trigger] sq_esc(x)[i] != '\n' by {
            if i < sq_char(x[0]).len() {
                assert(sq_esc(x)[i] == sq_char(x[0])[i]);
            } else {
                assert(sq_esc(x)[i] == sq_esc(x.drop_first())[i - sq_char(x[0]).len()]);
            }
        }
    }
}

/// The characters written inside double quotes hold no line break.
proof fn lemma_dq_esc_no_nl(x: Seq<char>)
    ensures
        no_nl(dq_esc(x)),
    decreases x.len(),
{
    if x.len() > 0 {
        lemma_dq_esc_no_nl(x.drop_first());
        assert(no_nl(dq_char(x[0])));
        assert forall|i: int| 0 <= i < dq_esc(x).len() implies #[trigger] dq_esc(x)[i] != '\n' by {
            if i < dq_char(x[0]).len() {
                assert(dq_esc(x)[i] == dq_char(x[0])[i]);
            } else {
                assert(dq_esc(x)[i] == dq_esc(x.drop_first())[i - dq_char(x[0]).len()]);
            }
        }
    }
}

/// A written scalar holds no newline, and it opens and closes with a quote.
proof fn lemma_scalar_no_nl(x: Seq<char>)
    ensures
        no_nl(scalar_enc(x)),
        scalar_enc(x).len() >= 2,
        scalar_enc(x)[0] != '\n' && scalar_enc(x)[0] != '-',
        scalar_enc(x).last() != '\n' && scalar_enc(x).last() != '-',
    decreases x.len(),
{
    if has_break(x) {
        lemma_dq_esc_no_nl(x);
        assert(scalar_enc(x) == (seq!['"'] + dq_esc(x)) + seq!['"']);
        assert forall|i: int| 0 <= i < scalar_enc(x).len() implies #[trigger] scalar_enc(x)[i]
            != '\n' by {
            if 0 < i < scalar_enc(x).len() - 1 {
                assert(scalar_enc(x)[i] == dq_esc(x)[i - 1]);
            }
        }
        assert(scalar_enc(x).last() == '"');
    } else {
        lemma_sq_esc_no_nl(x);
        assert(scalar_enc(x) == (seq!['\''] + sq_esc(x)) + seq!['\'']);
        assert forall|i: int| 0 <= i < scalar_enc(x).len() implies #[trigger] scalar_enc(x)[i]
            != '\n' by {
            if 0 < i < scalar_enc(x).len() - 1 {
                assert(scalar_enc(x)[i] == sq_esc(x)[i - 1]);
            }
        }
        assert(scalar_enc(x).last() == '\'');
    }
}

/// The rendered tag items are newline-safe; they open with the item dash and
/// close with a newline when there are any.
proof fn lemma_items_nl_safe(tags: Seq<Seq<char>>)
    ensures
        nl_safe(sp_tag_items(tags)),
        tags.len() > 0 ==> sp_tag_items(tags).len() > 1 && sp_tag_items(tags)[0] == '-'
            && sp_tag_items(tags)[1] == ' ' && sp_tag_items(tags).last() == '\n',
    decreases tags.len(),
{
    if tags.len() > 0 {
        lemma_items_nl_safe(tags.drop_first());
        lemma_scalar_no_nl(tags[0]);
        let q = scalar_enc(tags[0]);
        let t = sp_tag_items(tags.drop_first());
        lemma_no_nl_safe(item_prefix());
        lemma_no_nl_safe(q);
        lemma_nl_safe_concat(item_prefix(), q);
        lemma_nl_safe_concat(item_prefix() + q, seq!['\n']);
        lemma_nl_safe_concat(item_prefix() + q + seq!['\n'], t);
        assert(sp_tag_items(tags) == item_prefix() + q + seq!['\n'] + t);
        if t.len() > 0 {
            assert(sp_tag_items(tags).last() == t.last());
        } else {
            assert(sp_tag_items(tags) =~= item_prefix() + q + seq!['\n']);
        }
    }
}

/// The metadata segment is newline-safe, and it opens and closes with a
/// newline: no delimiter line starts inside it.
#[verifier::rlimit(100)]
#[verifier::spinoff_prover]
proof fn lemma_meta_nl_safe(fm: FrontmatterView)
    ensures
        nl_safe(sp_meta(fm)),
        sp_meta(fm).len() > 0,
        sp_meta(fm)[0] == '\n',
        sp_meta(fm).last() == '\n',
{
    lemma_u32_digits_ok(fm.id as int);
    let digits = u32_digits(fm.id as int);
    assert(no_nl(digits)) by {
        assert(forall|i: int| 0 <= i < digits.len() ==> is_digit(#[trigger] digits[i]));
    }
    lemma_scalar_no_nl(fm.title);
    lemma_scalar_no_nl(fm.created_at);
    lemma_scalar_no_nl(fm.updated_at);
    lemma_no_nl_safe(digits);
    lemma_no_nl_safe(scalar_enc(fm.title));
    lemma_no_nl_safe(scalar_enc(fm.created_at));
    lemma_no_nl_safe(scalar_enc(fm.updated_at));
    let blk = sp_tags_block(fm.tags);
    assert(nl_safe(blk) && blk.len() > 0 && blk[0] != '-' && blk.last() == '\n') by {
        if fm.tags.len() == 0 {
            assert(blk == tags_empty_line());
        } else {
            lemma_items_nl_safe(fm.tags);
            assert(nl_safe(tags_header()));
            lemma_nl_safe_concat(tags_header(), sp_tag_items(fm.tags));
            assert(blk == tags_header() + sp_tag_items(fm.tags));
            assert(blk.last() == sp_tag_items(fm.tags).last());
        }
    }
    let s1 = seq!['\n'] + key_id();
    lemma_nl_safe_concat(seq!['\n'], key_id());
    let s2 = s1 + digits;
    lemma_nl_safe_concat(s1, digits);
    let s3 = s2 + seq!['\n'];
    lemma_nl_safe_concat(s2, seq!['\n']);
    let s4 = s3 + key_title();
    lemma_nl_safe_concat(s3, key_title());
    let s5 = s4 + scalar_enc(fm.title);
    lemma_nl_safe_concat(s4, scalar_enc(fm.title));
    let s6 = s5 + seq!['\n'];
    lemma_nl_safe_concat(s5, seq!['\n']);
    let s7 = s6 + blk;
    lemma_nl_safe_concat(s6, blk);
    let s8 = s7 + key_created();
    lemma_nl_safe_concat(s7, key_created());
    let s9 = s8 + scalar_enc(fm.created_at);
    lemma_nl_safe_concat(s8, scalar_enc(fm.created_at));
    let s10 = s9 + seq!['\n'];
    lemma_nl_safe_concat(s9, seq!['\n']);
    let s11 = s10 + key_updated();
    lemma_nl_safe_concat(s10, key_updated());
    let s12 = s11 + scalar_enc(fm.updated_at);
    lemma_nl_safe_concat(s11, scalar_enc(fm.updated_at));
    let s13 = s12 + seq!['\n'];
    lemma_nl_safe_concat(s12, seq!['\n']);
    assert(sp_meta(fm) == s13);
    assert(s13.last() == '\n');
    assert(s13[0] == '\n');
}

/// The first delimiter line at or after `from` is the one at `j`.
proof fn lemma_find_close_first(s: Seq<char>, from: int, j: int)
    requires
        0 <= from <= j,
        j + 4 <= s.len(),
        s[j] == '\n' && s[j + 1] == '-' && s[j + 2] == '-' && s[j + 3] == '-',
        forall|k: int|
            from <= k < j ==> !(#[trigger] s[k] == '\n' && s[k + 1] == '-' && s[k + 2] == '-'
                && s[k + 3] == '-'),
    ensures
        sp_find_close(s, from) == Some(j),
    decreases j - from,
{
    if from < j {
        lemma_find_close_first(s, from + 1, j);
    }
}

/// Where the pieces of an encoded note file stand within it: the opening
/// delimiter, the metadata segment, the closing delimiter line (the first
/// one after the opening), and the raw tail.
#[verifier::rlimit(100)]
#[verifier::spinoff_prover]
proof fn lemma_encode_splits(fm: FrontmatterView, body: Seq<char>)
    ensures
        ({
            let text = sp_encode(fm, body);
            let meta = sp_meta(fm);
            &&& sp_match(text, 0, delim())
            &&& sp_find_close(text, 3) == Some(2 + meta.len() as int)
            &&& text.subrange(3, 3 + meta.len() as int) == meta
            &&& text.subrange(6 + meta.len() as int, text.len() as int) == seq!['\n', '\n'] + body
        }),
{
    let text = sp_encode(fm, body);
    let meta = sp_meta(fm);
    assert(sp_match(text, 0, text)) by {
        reveal(sp_match);
        assert(text.subrange(0, text.len() as int) =~= text);
    }
    assert(text == delim() + meta + delim() + seq!['\n', '\n'] + body);
    lemma_match_split(text, 0, delim() + meta + delim() + seq!['\n', '\n'], body);
    lemma_match_split(text, 0, delim() + meta + delim(), seq!['\n', '\n']);
    lemma_match_split(text, 0, delim() + meta, delim());
    lemma_match_split(text, 0, delim(), meta);
    let j: int = 2 + meta.len() as int;
    lemma_match_index(text, 3 + meta.len() as int, delim());
    lemma_match_index(text, 3, meta);
    lemma_meta_nl_safe(fm);
    assert(text[j] == meta.last());
    assert(text[j] == '\n');
    assert(text[j + 1] == '-' && text[j + 2] == '-' && text[j + 3] == '-');
    assert forall|k: int| 3 <= k < j implies !(#[trigger] text[k] == '\n' && text[k + 1] == '-'
        && text[k + 2] == '-' && text[k + 3] == '-') by {
        if text[k] == '\n' {
            assert(text[k] == meta[k - 3]);
            assert(text[k + 1] == meta[k - 2]);
            if meta[k - 2] == '-' {
                assert(k - 1 < meta.len() && meta[k - 1] == ' ');
                assert(text[k + 2] == meta[k - 1]);
            }
        }
    }
    lemma_find_close_first(text, 3, j);
    assert(text.subrange(3, 3 + meta.len() as int) == meta) by {
        reveal(sp_match);
    }
    let rest = text.subrange(j + 4, text.len() as int);
    assert(rest =~= seq!['\n', '\n'] + body) by {
        lemma_match_index(text, j + 4, seq!['\n', '\n']);
        lemma_match_index(text, j + 6, body);
        assert(forall|k: int| 0 <= k < rest.len() ==> #[trigger] rest[k] == text[j + 4 + k]);
    }
}

/// Trimming the written separator newlines off the raw tail leaves the body.
proof fn lemma_strip_tail(body: Seq<char>)
    requires
        body.len() == 0 || body[0] != '\n',
    ensures
        strip_nl(seq!['\n', '\n'] + body) == body,
{
    let rest = seq!['\n', '\n'] + body;
    let rest1 = seq!['\n'] + body;
    assert(rest[0] == '\n');
    assert(rest.drop_first() =~= rest1);
    assert(strip_nl(rest) == strip_nl(rest1));
    assert(rest1[0] == '\n');
    assert(rest1.drop_first() =~= body);
    assert(strip_nl(rest1) == strip_nl(body));
    assert(strip_nl(body) == body);
}

/// Decoding inverts encoding: the text a note file is given holds exactly
/// the metadata and the body that were written, for every title, tag name
/// and timestamp, provided the body does not open with a newline (leading
/// newlines of the body are trimmed at decode).
#[verifier::rlimit(100)]
#[verifier::spinoff_prover]
pub proof fn lemma_decode_encode(fm: FrontmatterView, body: Seq<char>)
    requires
        body.len() == 0 || body[0] != '\n',
    ensures
        sp_decode(sp_encode(fm, body)) == Some((fm, body)),
{
    let text = sp_encode(fm, body);
    let meta = sp_meta(fm);
    let j: int = 2 + meta.len() as int;
    lemma_encode_splits(fm, body);
    lemma_meta_inverts(fm);
    lemma_strip_tail(body);
    assert(text.subrange(j + 4, text.len() as int) == seq!['\n', '\n'] + body);
    assert(text.subrange(3, j + 1) == meta);
    assert(sp_parse_meta(text.subrange(3, j + 1)) == Some(fm));
    assert(strip_nl(text.subrange(j + 4, text.len() as int)) == body);
}

/// Where the pieces of a rendered metadata segment stand within it.
#[verifier::rlimit(100)]
#[verifier::spinoff_prover]
proof fn lemma_meta_splits(fm: FrontmatterView)
    ensures
        ({
            let m = sp_meta(fm);
            let digits = u32_digits(fm.id as int);
            let blk = sp_tags_block(fm.tags);
            let d = digits.len() as int;
            let qt = scalar_enc(fm.title).len() as int;
            let b = blk.len() as int;
            let qc = scalar_enc(fm.created_at).len() as int;
            let qu = scalar_enc(fm.updated_at).len() as int;
            &&& sp_match(m, 0, seq!['\n'])
            &&& sp_match(m, 1, key_id())
            &&& sp_match(m, 5, digits)
            &&& sp_match(m, 5 + d, seq!['\n'])
            &&& sp_match(m, 6 + d, key_title())
            &&& sp_match(m, 13 + d, scalar_enc(fm.title))
            &&& sp_match(m, 13 + d + qt, seq!['\n'])
            &&& sp_match(m, 14 + d + qt, blk)
            &&& sp_match(m, 14 + d + qt + b, key_created())
            &&& sp_match(m, 25 + d + qt + b, scalar_enc(fm.created_at))
            &&& sp_match(m, 25 + d + qt + b + qc, seq!['\n'])
            &&& sp_match(m, 26 + d + qt + b + qc, key_updated())
            &&& sp_match(m, 37 + d + qt + b + qc, scalar_enc(fm.updated_at))
            &&& sp_match(m, 37 + d + qt + b + qc + qu, seq!['\n'])
            &&& m.len() == 38 + d + qt + b + qc + qu
        }),
{
    let m = sp_meta(fm);
    let digits = u32_digits(fm.id as int);
    let blk = sp_tags_block(fm.tags);
    let s1 = seq!['\n'] + key_id();
    let s2 = s1 + digits;
    let s3 = s2 + seq!['\n'];
    let s4 = s3 + key_title();
    let s5 = s4 + scalar_enc(fm.title);
    let s6 = s5 + seq!['\n'];
    let s7 = s6 + blk;
    let s8 = s7 + key_created();
    let s9 = s8 + scalar_enc(fm.created_at);
    let s10 = s9 + seq!['\n'];
    let s11 = s10 + key_updated();
    let s12 = s11 + scalar_enc(fm.updated_at);
    let s13 = s12 + seq!['\n'];
    assert(m == s13);
    assert(sp_match(m, 0, s13)) by {
        reveal(sp_match);
        assert(m.subrange(0, m.len() as int) =~= m);
    }
    lemma_match_split(m, 0, s12, seq!['\n']);
    lemma_match_split(m, 0, s11, scalar_enc(fm.updated_at));
    lemma_match_split(m, 0, s10, key_updated());
    lemma_match_split(m, 0, s9, seq!['\n']);
    lemma_match_split(m, 0, s8, scalar_enc(fm.created_at));
    lemma_match_split(m, 0, s7, key_created());
    lemma_match_split(m, 0, s6, blk);
    lemma_match_split(m, 0, s5, seq!['\n']);
    lemma_match_split(m, 0, s4, scalar_enc(fm.title));
    lemma_match_split(m, 0, s3, key_title());
    lemma_match_split(m, 0, s2, seq!['\n']);
    lemma_match_split(m, 0, s1, digits);
    lemma_match_split(m, 0, seq!['\n'], key_id());
}

/// An id line parses back where its pieces were written.
#[verifier::spinoff_prover]
proof fn lemma_id_line_at(s: Seq<char>, pos: int, id: u32)
    requires
        sp_match(s, pos, key_id()),
        sp_match(s, pos + 4, u32_digits(id as int)),
        pos + 4 + u32_digits(id as int).len() < s.len(),
        s[pos + 4 + u32_digits(id as int).len()] == '\n',
    ensures
        sp_id_line(s, pos) == Some((id, pos + 4 + u32_digits(id as int).len() + 1)),
{
    assert(!is_digit('\n'));
    lemma_u32_inverts(s, pos + 4, id);
}

/// Parsing a decimal where one was written recovers the number.
proof fn lemma_u32_inverts(s: Seq<char>, pos: int, n: u32)
    requires
        sp_match(s, pos, u32_digits(n as int)),
        pos + u32_digits(n as int).len() == s.len() || !is_digit(
            s[pos + u32_digits(n as int).len()],
        ),
    ensures
        sp_u32(s, pos) == Some((n, pos + u32_digits(n as int).len())),
{
    let digits = u32_digits(n as int);
    let end = pos + digits.len();
    lemma_u32_digits_ok(n as int);
    lemma_match_index(s, pos, digits);
    assert forall|k: int| pos <= k < end implies is_digit(#[trigger] s[k]) by {
        assert(s[k] == digits[k - pos]);
        assert(is_digit(digits[k - pos]));
    }
    lemma_digits_end_at(s, pos, end);
    assert(s.subrange(pos, end) =~= digits);
}

/// The digit run that starts at `pos` ends exactly at `end`.
proof fn lemma_digits_end_at(s: Seq<char>, pos: int, end: int)
    requires
        0 <= pos <= end <= s.len(),
        forall|k: int| pos <= k < end ==> is_digit(#[trigger] s[k]),
        end == s.len() || !is_digit(s[end]),
    ensures
        sp_digits_end(s, pos) == end,
    decreases end - pos,
{
    if pos < end {
        lemma_digits_end_at(s, pos + 1, end);
    }
}

/// A keyed scalar line parses back where its pieces were written.
#[verifier::spinoff_prover]
proof fn lemma_keyed_scalar_at(s: Seq<char>, pos: int, key: Seq<char>, x: Seq<char>)
    requires
        sp_match(s, pos, key),
        sp_match(s, pos + key.len(), scalar_enc(x)),
        pos + key.len() + scalar_enc(x).len() < s.len(),
        s[pos + key.len() + scalar_enc(x).len()] == '\n',
    ensures
        sp_keyed_scalar(s, pos, key) == Some((x, pos + key.len() + scalar_enc(x).len() + 1)),
{
    lemma_scalar_inverts(s, pos + key.len(), x);
}

/// A tag part parses back where its block was written, provided the next
/// character is not a dash (nor a quote, which no key starts with).
#[verifier::spinoff_prover]
proof fn lemma_tags_part_at(s: Seq<char>, pos: int, tags: Seq<Seq<char>>)
    requires
        sp_match(s, pos, sp_tags_block(tags)),
        pos + sp_tags_block(tags).len() == s.len() || s[pos + sp_tags_block(tags).len()] != '-',
    ensures
        sp_tags_part(s, pos) == Some((tags, pos + sp_tags_block(tags).len())),
{
    let blk = sp_tags_block(tags);
    if tags.len() == 0 {
        assert(blk == tags_empty_line());
        lemma_match_index(s, pos, tags_empty_line());
        assert(!sp_match(s, pos, tags_header())) by {
            if sp_match(s, pos, tags_header()) {
                lemma_match_get(s, pos, tags_header(), 5);
                assert(s[pos + 5] == '\n');
                assert(s[pos + 5] == ' ');
            }
        }
        assert(tags_empty_line() =~= tags_flow_open() + seq![']', '\n']);
        lemma_match_split(s, pos, tags_flow_open(), seq![']', '\n']);
        assert(s[pos + 7] == ']');
        assert(s[pos + 8] == '\n');
        assert(sp_skip_sp(s, pos + 7) == pos + 7);
        assert(sp_flow(s, pos + 7) == Some((Seq::<Seq<char>>::empty(), pos + 8)));
        assert(tags =~= Seq::<Seq<char>>::empty());
    } else {
        assert(blk == tags_header() + sp_tag_items(tags));
        lemma_match_split(s, pos, tags_header(), sp_tag_items(tags));
        lemma_match_index(s, pos, tags_header());
        lemma_items_invert(s, pos + 6, tags);
    }
}

/// The id line and the title line parse back inside the rendered metadata
/// segment.
#[verifier::rlimit(100)]
#[verifier::spinoff_prover]
proof fn lemma_meta_parsed_head(fm: FrontmatterView)
    ensures
        ({
            let m = sp_meta(fm);
            let d = u32_digits(fm.id as int).len() as int;
            let qt = scalar_enc(fm.title).len() as int;
            &&& m.len() > 0 && m[0] == '\n'
            &&& sp_id_line(m, 1) == Some((fm.id, 6 + d))
            &&& sp_keyed_scalar(m, 6 + d, key_title()) == Some((fm.title, 14 + d + qt))
        }),
{
    let m = sp_meta(fm);
    let d = u32_digits(fm.id as int).len() as int;
    let qt = scalar_enc(fm.title).len() as int;
    lemma_u32_digits_ok(fm.id as int);
    lemma_meta_splits(fm);
    lemma_match_get(m, 0, seq!['\n'], 0);
    assert(m[0] == '\n');
    lemma_match_get(m, 5 + d, seq!['\n'], 0);
    lemma_id_line_at(m, 1, fm.id);
    assert(sp_id_line(m, 1) == Some((fm.id, 6 + d)));
    lemma_match_get(m, 13 + d + qt, seq!['\n'], 0);
    lemma_keyed_scalar_at(m, 6 + d, key_title(), fm.title);
}

/// The tag part and the two timestamp lines parse back inside the rendered
/// metadata segment, and nothing follows them.
#[verifier::rlimit(100)]
#[verifier::spinoff_prover]
proof fn lemma_meta_parsed_tail(fm: FrontmatterView)
    ensures
        ({
            let m = sp_meta(fm);
            let d = u32_digits(fm.id as int).len() as int;
            let qt = scalar_enc(fm.title).len() as int;
            let b = sp_tags_block(fm.tags).len() as int;
            let qc = scalar_enc(fm.created_at).len() as int;
            let qu = scalar_enc(fm.updated_at).len() as int;
            &&& sp_tags_part(m, 14 + d + qt) == Some((fm.tags, 14 + d + qt + b))
            &&& sp_keyed_scalar(m, 14 + d + qt + b, key_created()) == Some(
                (fm.created_at, 26 + d + qt + b + qc),
            )
            &&& sp_keyed_scalar(m, 26 + d + qt + b + qc, key_updated()) == Some(
                (fm.updated_at, 38 + d + qt + b + qc + qu),
            )
            &&& m.len() == 38 + d + qt + b + qc + qu
        }),
{
    let m = sp_meta(fm);
    let d = u32_digits(fm.id as int).len() as int;
    let qt = scalar_enc(fm.title).len() as int;
    let b = sp_tags_block(fm.tags).len() as int;
    let qc = scalar_enc(fm.created_at).len() as int;
    let qu = scalar_enc(fm.updated_at).len() as int;
    lemma_meta_splits(fm);
    lemma_match_get(m, 14 + d + qt + b, key_created(), 0);
    assert(m[14 + d + qt + b] == 'c');
    lemma_tags_part_at(m, 14 + d + qt, fm.tags);
    lemma_match_get(m, 25 + d + qt + b + qc, seq!['\n'], 0);
    lemma_keyed_scalar_at(m, 14 + d + qt + b, key_created(), fm.created_at);
    lemma_match_get(m, 37 + d + qt + b + qc + qu, seq!['\n'], 0);
    lemma_keyed_scalar_at(m, 26 + d + qt + b + qc, key_updated(), fm.updated_at);
}

/// Parsing the rendered metadata segment recovers the frontmatter.
#[verifier::rlimit(100)]
#[verifier::spinoff_prover]
proof fn lemma_meta_inverts(fm: FrontmatterView)
    ensures
        sp_parse_meta(sp_meta(fm)) == Some(fm),
{
    let m = sp_meta(fm);
    lemma_meta_parsed_head(fm);
    lemma_meta_parsed_tail(fm);
    let built = FrontmatterView {
        id: fm.id,
        title: fm.title,
        tags: fm.tags,
        created_at: fm.created_at,
        updated_at: fm.updated_at,
    };
    assert(built =~= fm);
    assert(sp_parse_meta(m) == Some(built));
}

/// The file name a note id determines: the decimal id and the `.md`
/// extension.
pub fn note_file_name(id: u32) -> (r: String)
    ensures
        r@ == u32_digits(id as int) + seq!['.', 'm', 'd'],
{
    proof {
        reveal_strlit(".md");
    }
    let mut out = u32_to_string(id);
    out.append(".md");
    proof {
        assert(out@ =~= u32_digits(id as int) + seq!['.', 'm', 'd']);
    }
    out
}

} // verus!
