//! The store manager: the tag registry, the mapping from directory snapshots
//! to notes, and the list / get / create / update / delete / list-tags
//! operations.
//!
//! The manager never touches the filesystem itself.  The surrounding process
//! hands each operation a snapshot of the notes directory — one [`NoteFile`]
//! per entry, carrying the bare file name and, for note files, the text — and
//! performs the writes and removals the operation's result calls for.

use vstd::prelude::*;

use crate::codec::{fm_of, parse_markdown_content, sp_decode, sp_encode, sp_shape};
use crate::text::{
    contains_sub, lex_le, lower_of, parse_u32_str, str_contains, str_lex_le, str_u32, to_lower,
};
use crate::types::{
    CreateNoteRequest, CreateNoteResponse, DeleteNoteResponse, Frontmatter, FrontmatterView,
    GetNoteResponse, ListNotesParams, ListNotesResponse, ListTagsResponse, Note, NoteError,
    NoteFile, NoteFileView, NoteView, Tag, TagView, UpdateNoteRequest, UpdateNoteResponse,
};

verus! {

// ---------------------------------------------------------------------------
// The tag registry, as a mathematical value: the sequence of distinct tag
// names in order of first appearance.  The id of the name at index `i` is
// `i + 1`; 0 is the sentinel for a name the registry does not know.
// ---------------------------------------------------------------------------

/// Index of the first occurrence of `name`, or the length when absent.
pub open spec fn reg_find(reg: Seq<Seq<char>>, name: Seq<char>) -> int
    decreases reg.len(),
{
    if reg.len() == 0 {
        0
    } else if reg[0] == name {
        0
    } else {
        1 + reg_find(reg.drop_first(), name)
    }
}

/// The registry knows `name`.
pub open spec fn reg_contains(reg: Seq<Seq<char>>, name: Seq<char>) -> bool {
    reg_find(reg, name) < reg.len()
}

/// The id the registry reports for `name`: its stable surrogate, or the
/// sentinel 0 when the name is unknown.
pub open spec fn spec_tag_id(reg: Seq<Seq<char>>, name: Seq<char>) -> u32 {
    if reg_contains(reg, name) {
        (reg_find(reg, name) + 1) as u32
    } else {
        0
    }
}

/// Resolving a name: the registry afterwards, and the id handed out.
pub open spec fn spec_resolve(reg: Seq<Seq<char>>, name: Seq<char>) -> (Seq<Seq<char>>, u32) {
    if reg_contains(reg, name) {
        (reg, spec_tag_id(reg, name))
    } else {
        (reg.push(name), (reg.len() + 1) as u32)
    }
}

/// Resolving a list of names in order, keeping only the registry.
pub open spec fn spec_resolve_all(reg: Seq<Seq<char>>, names: Seq<Seq<char>>) -> Seq<Seq<char>>
    decreases names.len(),
{
    if names.len() == 0 {
        reg
    } else {
        spec_resolve(spec_resolve_all(reg, names.drop_last()), names.last()).0
    }
}

/// The registry invariant: names distinct, and few enough that every id fits
/// in 32 bits.
pub open spec fn reg_wf(reg: Seq<Seq<char>>) -> bool {
    &&& forall|i: int, j: int| 0 <= i < j < reg.len() ==> #[trigger] reg[i] != #[trigger] reg[j]
    &&& reg.len() < u32::MAX as int
}

/// Where `reg_find` points and what stands left of it.
pub proof fn lemma_reg_find_props(reg: Seq<Seq<char>>, name: Seq<char>)
    ensures
        0 <= reg_find(reg, name) <= reg.len(),
        reg_find(reg, name) < reg.len() ==> reg[reg_find(reg, name)] == name,
        forall|k: int| 0 <= k < reg_find(reg, name) ==> reg[k] != name,
    decreases reg.len(),
{
    if reg.len() > 0 && reg[0] != name {
        lemma_reg_find_props(reg.drop_first(), name);
        let f = reg_find(reg.drop_first(), name);
        assert(reg_find(reg, name) == 1 + f);
        if f < reg.drop_first().len() {
            assert(reg.drop_first()[f] == reg[1 + f]);
        }
        assert forall|k: int| 0 <= k < reg_find(reg, name) implies reg[k] != name by {
            if k > 0 {
                assert(reg.drop_first()[k - 1] == reg[k]);
            }
        }
    }
}

/// Appending a fresh name leaves earlier lookups alone and files the new
/// name at the end.
pub proof fn lemma_reg_find_push(reg: Seq<Seq<char>>, name: Seq<char>, x: Seq<char>)
    ensures
        reg_contains(reg, name) ==> reg_find(reg.push(x), name) == reg_find(reg, name),
        !reg_contains(reg, name) && name != x ==> !reg_contains(reg.push(x), name),
        !reg_contains(reg, name) && name == x ==> reg_find(reg.push(x), name) == reg.len(),
    decreases reg.len(),
{
    lemma_reg_find_props(reg, name);
    lemma_reg_find_props(reg.push(x), name);
    if reg.len() == 0 {
        if name == x {
            assert(reg.push(x)[0] == x);
        } else {
            assert(reg.push(x)[0] == x);
            assert(reg.push(x).drop_first() =~= Seq::<Seq<char>>::empty());
            assert(reg_find(reg.push(x), name) == 1);
        }
    } else {
        lemma_reg_find_push(reg.drop_first(), name, x);
        lemma_reg_find_props(reg.drop_first(), name);
        lemma_reg_find_props(reg.drop_first().push(x), name);
        assert(reg.push(x)[0] == reg[0]);
        assert(reg.push(x).drop_first() =~= reg.drop_first().push(x));
        if reg[0] != name {
            assert(reg_find(reg.push(x), name) == 1 + reg_find(reg.drop_first().push(x), name));
            assert(reg_find(reg, name) == 1 + reg_find(reg.drop_first(), name));
        }
    }
}

/// A name the registry knows keeps its id through any single resolution.
pub proof fn lemma_resolve_keeps_id(reg: Seq<Seq<char>>, name: Seq<char>, other: Seq<char>)
    requires
        reg_contains(reg, name),
    ensures
        reg_contains(spec_resolve(reg, other).0, name),
        spec_tag_id(spec_resolve(reg, other).0, name) == spec_tag_id(reg, name),
{
    if !reg_contains(reg, other) {
        lemma_reg_find_push(reg, name, other);
    }
}

/// A name the registry knows keeps its id through any list of resolutions.
pub proof fn lemma_resolve_all_keeps_id(
    reg: Seq<Seq<char>>,
    name: Seq<char>,
    others: Seq<Seq<char>>,
)
    requires
        reg_contains(reg, name),
    ensures
        reg_contains(spec_resolve_all(reg, others), name),
        spec_tag_id(spec_resolve_all(reg, others), name) == spec_tag_id(reg, name),
    decreases others.len(),
{
    if others.len() > 0 {
        lemma_resolve_all_keeps_id(reg, name, others.drop_last());
        lemma_resolve_keeps_id(spec_resolve_all(reg, others.drop_last()), name, others.last());
    }
}

/// Resolving a name makes it known, under the id that was handed out.
pub proof fn lemma_resolve_learns(reg: Seq<Seq<char>>, name: Seq<char>)
    ensures
        reg_contains(spec_resolve(reg, name).0, name),
        spec_tag_id(spec_resolve(reg, name).0, name) == spec_resolve(reg, name).1,
{
    if !reg_contains(reg, name) {
        lemma_reg_find_push(reg, name, name);
    }
}

/// Resolution preserves the registry invariant and extends the registry by
/// at most the new name.
pub proof fn lemma_resolve_wf(reg: Seq<Seq<char>>, name: Seq<char>)
    requires
        forall|i: int, j: int| 0 <= i < j < reg.len() ==> #[trigger] reg[i] != #[trigger] reg[j],
    ensures
        ({
            let reg2 = spec_resolve(reg, name).0;
            &&& reg.len() <= reg2.len() <= reg.len() + 1
            &&& reg.is_prefix_of(reg2)
            &&& forall|i: int, j: int|
                0 <= i < j < reg2.len() ==> #[trigger] reg2[i] != #[trigger] reg2[j]
        }),
{
    lemma_reg_find_props(reg, name);
    if !reg_contains(reg, name) {
        let reg2 = reg.push(name);
        assert(reg.is_prefix_of(reg2)) by {
            assert(reg2.take(reg.len() as int) =~= reg);
        }
        assert forall|i: int, j: int| 0 <= i < j < reg2.len() implies #[trigger] reg2[i]
            != #[trigger] reg2[j] by {
            if j == reg.len() {
                assert(reg2[j] == name);
                assert(reg[i] != name);
            }
        }
    } else {
        assert(reg.is_prefix_of(reg)) by {
            assert(reg.take(reg.len() as int) =~= reg);
        }
    }
}

// ---------------------------------------------------------------------------
// File names: stem, extension, numeric ids.
// ---------------------------------------------------------------------------

/// Position of the last dot in a file name, if any.
pub open spec fn last_dot(name: Seq<char>) -> Option<int>
    decreases name.len(),
{
    if name.len() == 0 {
        None
    } else if name.last() == '.' {
        Some(name.len() - 1)
    } else {
        last_dot(name.drop_last())
    }
}

/// The file stem: everything before the last dot, except that a lone
/// leading dot belongs to the stem.
pub open spec fn stem_of(name: Seq<char>) -> Seq<char> {
    match last_dot(name) {
        None => name,
        Some(d) => if d == 0 {
            name
        } else {
            name.subrange(0, d)
        },
    }
}

/// The file extension: everything after the last dot, when a stem precedes
/// it.
pub open spec fn ext_of(name: Seq<char>) -> Option<Seq<char>> {
    match last_dot(name) {
        None => None,
        Some(d) => if d == 0 {
            None
        } else {
            Some(name.subrange(d + 1, name.len() as int))
        },
    }
}

/// The entry is a note file by name: its extension is `md`.
pub open spec fn has_md_ext(name: Seq<char>) -> bool {
    ext_of(name) == Some(seq!['m', 'd'])
}

/// Finds the position of the last dot in a file name.
fn last_dot_exec(name: &str) -> (r: Option<usize>)
    ensures
        match r {
            Some(d) => last_dot(name@) == Some(d as int) && d < name@.len(),
            None => last_dot(name@) is None,
        },
{
    let len = name.unicode_len();
    proof {
        assert(name@.take(len as int) =~= name@);
    }
    let mut i = len;
    while i > 0
        invariant
            i <= len == name@.len(),
            last_dot(name@) == last_dot(name@.take(i as int)),
        decreases i,
    {
        proof {
            assert(name@.take(i as int).last() == name@[i as int - 1]);
            assert(name@.take(i as int).drop_last() =~= name@.take(i as int - 1));
        }
        if name.get_char(i - 1) == '.' {
            return Some(i - 1);
        }
        i -= 1;
    }
    proof {
        assert(name@.take(0) =~= Seq::<char>::empty());
    }
    None
}

/// Decides whether a file name carries the `md` extension.
pub fn has_md_extension(name: &str) -> (r: bool)
    ensures
        r == has_md_ext(name@),
{
    proof {
        reveal_strlit("md");
    }
    let len = name.unicode_len();
    match last_dot_exec(name) {
        None => false,
        Some(d) => {
            if d == 0 {
                false
            } else {
                let ext = name.substring_char(d + 1, len);
                let ok = crate::text::match_at(ext, 0, "md") && ext.unicode_len() == 2;
                proof {
                    assert("md"@ =~= seq!['m', 'd']);
                    crate::text::lemma_match_exact(ext@, "md"@);
                    assert(ext@ == name@.subrange(d as int + 1, name@.len() as int));
                }
                ok
            }
        },
    }
}

/// The numeric id a file name's stem denotes, if any.
pub open spec fn stem_id(name: Seq<char>) -> Option<u32> {
    str_u32(stem_of(name))
}

/// The largest numeric stem among the directory entries, 0 when there is
/// none.
pub open spec fn spec_max_id(files: Seq<NoteFileView>) -> int
    decreases files.len(),
{
    if files.len() == 0 {
        0
    } else {
        let rest = spec_max_id(files.drop_last());
        let v = match stem_id(files.last().name) {
            Some(v) => v as int,
            None => 0,
        };
        if v > rest {
            v
        } else {
            rest
        }
    }
}

/// The id the next created note receives.
pub open spec fn spec_next_id(files: Seq<NoteFileView>) -> int {
    spec_max_id(files) + 1
}

/// The view of a directory snapshot.
pub open spec fn files_view(files: Seq<NoteFile>) -> Seq<NoteFileView> {
    files.map_values(|f: NoteFile| f@)
}

/// No prefix of the directory exceeds the whole directory's largest id.
pub proof fn lemma_max_id_take_le(files: Seq<NoteFileView>, i: int)
    requires
        0 <= i <= files.len(),
    ensures
        spec_max_id(files.take(i)) <= spec_max_id(files),
    decreases files.len() - i,
{
    if i < files.len() {
        lemma_max_id_take_le(files, i + 1);
        assert(files.take(i + 1).drop_last() =~= files.take(i));
        assert(files.take(i + 1).last() == files[i]);
    } else {
        assert(files.take(i) =~= files);
    }
}

/// Every numeric stem in the directory lies below the next note id: created
/// ids are never ids of present files, so an id is reused only when the
/// largest one was removed first.
pub proof fn lemma_next_id_exceeds(files: Seq<NoteFileView>, i: int, v: u32)
    requires
        0 <= i < files.len(),
        stem_id(files[i].name) == Some(v),
    ensures
        spec_next_id(files) > v,
    decreases files.len(),
{
    if i == files.len() - 1 {
        assert(files.last() == files[i]);
    } else {
        lemma_next_id_exceeds(files.drop_last(), i, v);
        assert(files.drop_last()[i] == files[i]);
    }
}

// ---------------------------------------------------------------------------
// Scanning a directory snapshot.
// ---------------------------------------------------------------------------

/// What a directory entry contributes to the store: its decoded metadata and
/// body, if it is a note file that decodes.
pub open spec fn note_of_file(f: NoteFileView) -> Option<(FrontmatterView, Seq<char>)> {
    if has_md_ext(f.name) {
        sp_decode(f.text)
    } else {
        None
    }
}

/// The registry rebuilt from a directory snapshot: the tag names of each
/// decodable note file, in file order, each list in its written order.
pub open spec fn spec_rebuild(files: Seq<NoteFileView>) -> Seq<Seq<char>>
    decreases files.len(),
{
    if files.len() == 0 {
        Seq::empty()
    } else {
        let r = spec_rebuild(files.drop_last());
        match note_of_file(files.last()) {
            Some(p) => spec_resolve_all(r, p.0.tags),
            None => r,
        }
    }
}

/// Resolving more names never shrinks the registry.
pub proof fn lemma_resolve_all_take_le(reg: Seq<Seq<char>>, names: Seq<Seq<char>>, j: int)
    requires
        0 <= j <= names.len(),
    ensures
        spec_resolve_all(reg, names.take(j)).len() <= spec_resolve_all(reg, names).len(),
    decreases names.len() - j,
{
    if j < names.len() {
        lemma_resolve_all_take_le(reg, names, j + 1);
        assert(names.take(j + 1).drop_last() =~= names.take(j));
        assert(names.take(j + 1).last() == names[j]);
    } else {
        assert(names.take(j) =~= names);
    }
}

/// The registry never shrinks as the rebuild scan proceeds, and it keeps the
/// invariant's distinctness.
pub proof fn lemma_rebuild_take_le(files: Seq<NoteFileView>, i: int)
    requires
        0 <= i <= files.len(),
    ensures
        spec_rebuild(files.take(i)).len() <= spec_rebuild(files).len(),
    decreases files.len() - i,
{
    if i < files.len() {
        lemma_rebuild_take_le(files, i + 1);
        assert(files.take(i + 1).drop_last() =~= files.take(i));
        assert(files.take(i + 1).last() == files[i]);
        let r = spec_rebuild(files.take(i));
        match note_of_file(files[i]) {
            Some(p) => {
                assert(r.take(r.len() as int) =~= r);
                lemma_resolve_all_wf_free(r, p.0.tags);
            },
            None => {},
        }
    } else {
        assert(files.take(i) =~= files);
    }
}

/// Length growth of resolution, without any distinctness assumption.
pub proof fn lemma_resolve_all_wf_free(reg: Seq<Seq<char>>, names: Seq<Seq<char>>)
    ensures
        reg.len() <= spec_resolve_all(reg, names).len(),
    decreases names.len(),
{
    if names.len() > 0 {
        lemma_resolve_all_wf_free(reg, names.drop_last());
    }
}

// ---------------------------------------------------------------------------
// The manager.
// ---------------------------------------------------------------------------

/// The store manager: it owns the tag registry.  Its view is the registry's
/// sequence of distinct tag names; the name at index `i` carries id `i + 1`.
pub struct NoteManager {
    tag_names: Vec<String>,
}

impl View for NoteManager {
    type V = Seq<Seq<char>>;

    closed spec fn view(&self) -> Seq<Seq<char>> {
        self.tag_names.deep_view()
    }
}

/// A note materialized from decoded metadata and the current registry: every
/// tag name is looked up, the sentinel id 0 standing in for an unknown name,
/// and each tag is stamped with the note's creation time.
pub open spec fn spec_materialize(
    reg: Seq<Seq<char>>,
    fm: FrontmatterView,
    body: Seq<char>,
) -> NoteView {
    NoteView {
        id: fm.id,
        title: fm.title,
        content: body,
        tags: Seq::new(
            fm.tags.len(),
            |i: int| TagView { id: spec_tag_id(reg, fm.tags[i]), name: fm.tags[i], created_at: fm.created_at },
        ),
        created_at: fm.created_at,
        updated_at: fm.updated_at,
    }
}

impl NoteManager {
    /// The registry invariant.
    pub open spec fn wf(&self) -> bool {
        reg_wf(self.view())
    }

    /// Builds a manager over a directory snapshot: the tag registry is
    /// rebuilt from the note files found there.
    pub fn new(files: &Vec<NoteFile>) -> (r: Result<NoteManager, crate::types::NoteError>)
        requires
            spec_rebuild(files_view(files@)).len() < u32::MAX as int,
        ensures
            r is Ok,
            r->Ok_0.wf(),
            r->Ok_0@ == spec_rebuild(files_view(files@)),
    {
        let mut m = NoteManager { tag_names: Vec::new() };
        proof {
            assert(m@ =~= Seq::<Seq<char>>::empty());
        }
        m.rebuild_tag_map(files);
        Ok(m)
    }

    /// Clears the registry and rescans the directory: every decodable note
    /// file contributes its tag names in order, files in snapshot order.
    /// Files that fail to decode are skipped.
    pub fn rebuild_tag_map(&mut self, files: &Vec<NoteFile>)
        requires
            spec_rebuild(files_view(files@)).len() < u32::MAX as int,
        ensures
            final(self).wf(),
            final(self)@ == spec_rebuild(files_view(files@)),
    {
        self.tag_names = Vec::new();
        let ghost fv = files_view(files@);
        proof {
            assert(self@ =~= Seq::<Seq<char>>::empty());
            assert(fv.take(0) =~= Seq::<NoteFileView>::empty());
        }
        let mut i: usize = 0;
        while i < files.len()
            invariant
                i <= files.len(),
                fv == files_view(files@),
                fv.len() == files@.len(),
                spec_rebuild(fv).len() < u32::MAX as int,
                self.wf(),
                self@ == spec_rebuild(fv.take(i as int)),
            decreases files.len() - i,
        {
            proof {
                assert(fv[i as int] == files@[i as int]@);
                assert(fv.take(i as int + 1).drop_last() =~= fv.take(i as int));
                assert(fv.take(i as int + 1).last() == fv[i as int]);
                lemma_rebuild_take_le(fv, i as int + 1);
            }
            let f = &files[i];
            if has_md_extension(f.name.as_str()) {
                match parse_markdown_content(f.text.as_str()) {
                    Ok(p) => {
                        let (fm, _body) = p;
                        let ghost reg0 = self@;
                        let ghost names = fm@.tags;
                        let ghost fmv = fm@;
                        proof {
                            assert(note_of_file(fv[i as int]) == Some((fmv, _body@)));
                            assert(spec_rebuild(fv.take(i as int + 1)) == spec_resolve_all(
                                reg0,
                                names,
                            ));
                            assert(names.take(0) =~= Seq::<Seq<char>>::empty());
                        }
                        let mut j: usize = 0;
                        while j < fm.tags.len()
                            invariant
                                j <= fm.tags.len(),
                                names == fm.tags.deep_view(),
                                names.len() == fm.tags@.len(),
                                self.wf(),
                                self@ == spec_resolve_all(reg0, names.take(j as int)),
                                spec_resolve_all(reg0, names).len() < u32::MAX as int,
                                forall|k: int, l: int|
                                    0 <= k < l < reg0.len() ==> #[trigger] reg0[k]
                                        != #[trigger] reg0[l],
                            decreases fm.tags.len() - j,
                        {
                            proof {
                                assert(names[j as int] == fm.tags@[j as int]@);
                                assert(names.take(j as int + 1).drop_last() =~= names.take(
                                    j as int,
                                ));
                                assert(names.take(j as int + 1).last() == names[j as int]);
                                lemma_resolve_all_take_le(reg0, names, j as int + 1);
                            }
                            let _ = self.resolve_or_assign(&fm.tags[j]);
                            j += 1;
                        }
                        proof {
                            assert(names.take(names.len() as int) =~= names);
                        }
                    },
                    Err(_) => {
                        proof {
                            assert(note_of_file(fv[i as int]) is None);
                        }
                    },
                }
            } else {
                proof {
                    assert(note_of_file(fv[i as int]) is None);
                }
            }
            i += 1;
        }
        proof {
            assert(fv.take(files@.len() as int) =~= fv);
        }
    }

    /// Returns the existing id for `name`, or assigns the next one: ids are
    /// handed out from 1 in order of first appearance and never change within
    /// one manager lifetime.
    pub fn resolve_or_assign(&mut self, name: &String) -> (id: u32)
        requires
            old(self).wf(),
            spec_resolve(old(self)@, name@).0.len() < u32::MAX as int,
        ensures
            final(self).wf(),
            final(self)@ == spec_resolve(old(self)@, name@).0,
            id == spec_resolve(old(self)@, name@).1,
    {
        let ghost reg = self@;
        let mut i: usize = 0;
        while i < self.tag_names.len()
            invariant
                self == old(self),
                reg == self@,
                reg_wf(reg),
                reg.len() == self.tag_names@.len(),
                i <= self.tag_names@.len(),
                forall|k: int| 0 <= k < i ==> reg[k] != name@,
            decreases self.tag_names@.len() - i,
        {
            proof {
                assert(reg[i as int] == self.tag_names@[i as int]@);
            }
            if self.tag_names[i].eq(name) {
                proof {
                    lemma_reg_find_props(reg, name@);
                    assert(reg[i as int] == name@);
                    assert(reg_find(reg, name@) == i as int);
                    assert(reg_contains(reg, name@));
                    assert(spec_resolve(reg, name@).0 == reg);
                    assert(self.wf());
                }
                return i as u32 + 1;
            }
            i += 1;
        }
        proof {
            lemma_reg_find_props(reg, name@);
            assert(!reg_contains(reg, name@));
            assert(spec_resolve(reg, name@).0 == reg.push(name@));
        }
        let id = self.tag_names.len() as u32 + 1;
        self.tag_names.push(name.clone());
        proof {
            assert(self@ =~= reg.push(name@));
            lemma_resolve_wf(reg, name@);
        }
        id
    }

    /// How many tag names the registry currently holds.
    pub fn tag_count(&self) -> (r: usize)
        ensures
            r == self@.len(),
    {
        let r = self.tag_names.len();
        proof {
            assert(self@.len() == self.tag_names@.len());
        }
        r
    }

    /// The id the registry currently reports for `name`: 0 when unknown.
    fn tag_id_of(&self, name: &String) -> (id: u32)
        requires
            self.wf(),
        ensures
            id == spec_tag_id(self@, name@),
    {
        let ghost reg = self@;
        let mut i: usize = 0;
        while i < self.tag_names.len()
            invariant
                reg == self@,
                self.wf(),
                reg.len() < u32::MAX as int,
                reg.len() == self.tag_names@.len(),
                i <= self.tag_names@.len(),
                forall|k: int| 0 <= k < i ==> reg[k] != name@,
            decreases self.tag_names@.len() - i,
        {
            proof {
                assert(reg[i as int] == self.tag_names@[i as int]@);
            }
            if self.tag_names[i].eq(name) {
                proof {
                    lemma_reg_find_props(reg, name@);
                    assert(reg_find(reg, name@) == i as int);
                }
                return i as u32 + 1;
            }
            i += 1;
        }
        proof {
            lemma_reg_find_props(reg, name@);
            assert(!reg_contains(reg, name@));
        }
        0
    }

    /// Builds a full note from decoded metadata, the body text and the
    /// current registry.
    pub fn frontmatter_to_note(&self, fm: Frontmatter, content: String) -> (n: Note)
        requires
            self.wf(),
        ensures
            n@ == spec_materialize(self@, fm@, content@),
    {
        let ghost fmv = fm@;
        let mut tags: Vec<Tag> = Vec::new();
        let mut i: usize = 0;
        while i < fm.tags.len()
            invariant
                self.wf(),
                fmv == fm@,
                fmv.tags.len() == fm.tags@.len(),
                i <= fm.tags@.len(),
                tags@.len() == i,
                forall|k: int|
                    0 <= k < i ==> #[trigger] tags@[k]@ == (TagView {
                        id: spec_tag_id(self@, fmv.tags[k]),
                        name: fmv.tags[k],
                        created_at: fmv.created_at,
                    }),
            decreases fm.tags@.len() - i,
        {
            proof {
                assert(fmv.tags[i as int] == fm.tags@[i as int]@);
            }
            let id = self.tag_id_of(&fm.tags[i]);
            tags.push(
                Tag { id, name: fm.tags[i].clone(), created_at: fm.created_at.clone() },
            );
            i += 1;
        }
        let n = Note {
            id: fm.id,
            title: fm.title,
            content,
            tags,
            created_at: fm.created_at,
            updated_at: fm.updated_at,
        };
        proof {
            assert(n@.tags =~= spec_materialize(self@, fmv, content@).tags);
            assert(n@ =~= spec_materialize(self@, fmv, content@));
        }
        n
    }

    /// The id the next created note receives: one past the largest numeric
    /// file stem in the directory, 1 when there is none.
    pub fn get_next_note_id(&self, files: &Vec<NoteFile>) -> (r: u32)
        requires
            spec_max_id(files_view(files@)) < u32::MAX as int,
        ensures
            r as int == spec_next_id(files_view(files@)),
    {
        let ghost fv = files_view(files@);
        proof {
            assert(fv.take(0) =~= Seq::<NoteFileView>::empty());
        }
        let mut max: u32 = 0;
        let mut i: usize = 0;
        while i < files.len()
            invariant
                i <= files.len(),
                fv == files_view(files@),
                fv.len() == files@.len(),
                spec_max_id(fv) < u32::MAX as int,
                max as int == spec_max_id(fv.take(i as int)),
            decreases files.len() - i,
        {
            proof {
                assert(fv[i as int] == files@[i as int]@);
                assert(fv.take(i as int + 1).drop_last() =~= fv.take(i as int));
                assert(fv.take(i as int + 1).last() == fv[i as int]);
                lemma_max_id_take_le(fv, i as int + 1);
            }
            let name = &files[i].name;
            let len = name.unicode_len();
            let stem: &str = match last_dot_exec(name.as_str()) {
                None => name.as_str(),
                Some(d) => {
                    if d == 0 {
                        name.as_str()
                    } else {
                        name.as_str().substring_char(0, d)
                    }
                },
            };
            proof {
                assert(stem@ == stem_of(fv[i as int].name));
            }
            match parse_u32_str(stem) {
                Some(v) => {
                    if v > max {
                        max = v;
                    }
                },
                None => {},
            }
            i += 1;
        }
        proof {
            assert(fv.take(files@.len() as int) =~= fv);
        }
        max + 1
    }
}

// ---------------------------------------------------------------------------
// Listing: scan, sort, filter, paginate.
// ---------------------------------------------------------------------------

/// The views of a sequence of notes.
pub open spec fn notes_view(s: Seq<Note>) -> Seq<NoteView> {
    s.map_values(|n: Note| n@)
}

/// The notes a directory snapshot holds, materialized against a registry,
/// in snapshot order; entries that are not note files or fail to decode are
/// skipped.
pub open spec fn spec_scan_notes(reg: Seq<Seq<char>>, files: Seq<NoteFileView>) -> Seq<NoteView>
    decreases files.len(),
{
    if files.len() == 0 {
        Seq::empty()
    } else {
        let r = spec_scan_notes(reg, files.drop_last());
        match note_of_file(files.last()) {
            Some(p) => r.push(spec_materialize(reg, p.0, p.1)),
            None => r,
        }
    }
}

/// Stable insertion into a sequence sorted by update time, newest first: the
/// new note goes after every note at least as new.
pub open spec fn sp_insert_note(s: Seq<NoteView>, x: NoteView) -> Seq<NoteView>
    decreases s.len(),
{
    if s.len() > 0 && lex_le(x.updated_at, s[0].updated_at) {
        seq![s[0]] + sp_insert_note(s.drop_first(), x)
    } else {
        seq![x] + s
    }
}

/// Stable sort by update time, newest first.
pub open spec fn sp_sort_notes(s: Seq<NoteView>) -> Seq<NoteView>
    decreases s.len(),
{
    if s.len() == 0 {
        Seq::empty()
    } else {
        sp_insert_note(sp_sort_notes(s.drop_last()), s.last())
    }
}

/// Whether a note survives the search and tag filters: the case-folded
/// search string occurs in the case-folded title or content, and some tag id
/// is among those asked for (an empty id list filters nothing).
pub open spec fn note_keep(
    n: NoteView,
    search: Option<Seq<char>>,
    tag_ids: Option<Seq<u32>>,
) -> bool {
    (match search {
        Some(q) => contains_sub(lower_of(n.title), lower_of(q)) || contains_sub(
            lower_of(n.content),
            lower_of(q),
        ),
        None => true,
    }) && (match tag_ids {
        Some(ids) => ids.len() == 0 || (exists|t: int|
            0 <= t < n.tags.len() && ids.contains(#[trigger] n.tags[t].id)),
        None => true,
    })
}

/// The notes that survive the filters, order kept.
pub open spec fn sp_filter_notes(
    s: Seq<NoteView>,
    search: Option<Seq<char>>,
    tag_ids: Option<Seq<u32>>,
) -> Seq<NoteView>
    decreases s.len(),
{
    if s.len() == 0 {
        Seq::empty()
    } else {
        let r = sp_filter_notes(s.drop_last(), search, tag_ids);
        if note_keep(s.last(), search, tag_ids) {
            r.push(s.last())
        } else {
            r
        }
    }
}

/// One page: `offset` notes skipped, at most `limit` kept.
pub open spec fn sp_page(s: Seq<NoteView>, offset: int, limit: int) -> Seq<NoteView> {
    let start = if offset > s.len() { s.len() as int } else { offset };
    let end = if offset + limit > s.len() { s.len() as int } else { offset + limit };
    s.subrange(start, end)
}

/// The view of an optional search string.
pub open spec fn search_view(o: Option<String>) -> Option<Seq<char>> {
    match o {
        Some(s) => Some(s@),
        None => None,
    }
}

/// The view of an optional tag id list.
pub open spec fn ids_view(o: Option<Vec<u32>>) -> Option<Seq<u32>> {
    match o {
        Some(v) => Some(v@),
        None => None,
    }
}

/// Insertion keeps the head while the new note is no newer than it.
proof fn lemma_insert_skip(s: Seq<NoteView>, x: NoteView, idx: int)
    requires
        0 <= idx <= s.len(),
        forall|k: int| 0 <= k < idx ==> lex_le(x.updated_at, #[trigger] s[k].updated_at),
    ensures
        sp_insert_note(s, x) == s.take(idx) + sp_insert_note(s.skip(idx), x),
    decreases idx,
{
    if idx == 0 {
        assert(s.skip(0) =~= s);
        assert(s.take(0) + sp_insert_note(s, x) =~= sp_insert_note(s, x));
    } else {
        assert(lex_le(x.updated_at, s[0].updated_at));
        let df = s.drop_first();
        assert forall|k: int| 0 <= k < idx - 1 implies lex_le(
            x.updated_at,
            #[trigger] df[k].updated_at,
        ) by {
            assert(df[k] == s[k + 1]);
        }
        lemma_insert_skip(df, x, idx - 1);
        assert(df.skip(idx - 1) =~= s.skip(idx));
        assert(seq![s[0]] + (df.take(idx - 1) + sp_insert_note(s.skip(idx), x)) =~= s.take(idx)
            + sp_insert_note(s.skip(idx), x));
    }
}

/// Inserts a note into a vector sorted by update time, newest first, at the
/// position stable insertion gives it.
fn insert_sorted(v: &mut Vec<Note>, x: Note)
    ensures
        notes_view(final(v)@) == sp_insert_note(notes_view(old(v)@), x@),
{
    let ghost nv = notes_view(v@);
    let ghost xv = x@;
    let mut idx: usize = 0;
    while idx < v.len() && str_lex_le(x.updated_at.as_str(), v[idx].updated_at.as_str())
        invariant
            nv == notes_view(v@),
            xv == x@,
            nv.len() == v@.len(),
            idx <= v@.len(),
            forall|k: int| 0 <= k < idx ==> lex_le(xv.updated_at, #[trigger] nv[k].updated_at),
        decreases v@.len() - idx,
    {
        proof {
            assert(nv[idx as int] == v@[idx as int]@);
        }
        idx += 1;
    }
    proof {
        assert(idx < v@.len() ==> nv[idx as int] == v@[idx as int]@);
        lemma_insert_skip(nv, xv, idx as int);
        if idx < v@.len() {
            assert(nv.skip(idx as int)[0] == nv[idx as int]);
            assert(sp_insert_note(nv.skip(idx as int), xv) == seq![xv] + nv.skip(idx as int));
        } else {
            assert(nv.skip(idx as int) =~= Seq::<NoteView>::empty());
            assert(sp_insert_note(nv.skip(idx as int), xv) == seq![xv] + nv.skip(idx as int));
        }
    }
    v.insert(idx, x);
    proof {
        assert(notes_view(v@) =~= nv.take(idx as int) + (seq![xv] + nv.skip(idx as int)));
    }
}

/// Decides whether a vector of ids holds `x`.
fn ids_contain(ids: &Vec<u32>, x: u32) -> (r: bool)
    ensures
        r == ids@.contains(x),
{
    let mut i: usize = 0;
    while i < ids.len()
        invariant
            i <= ids@.len(),
            forall|k: int| 0 <= k < i ==> ids@[k] != x,
        decreases ids@.len() - i,
    {
        if ids[i] == x {
            return true;
        }
        i += 1;
    }
    false
}

/// Decides whether some tag of the note carries one of the asked-for ids.
fn note_has_tag(n: &Note, ids: &Vec<u32>) -> (r: bool)
    ensures
        r == (exists|t: int| 0 <= t < n@.tags.len() && ids@.contains(#[trigger] n@.tags[t].id)),
{
    let mut i: usize = 0;
    while i < n.tags.len()
        invariant
            i <= n.tags@.len(),
            n@.tags.len() == n.tags@.len(),
            forall|t: int| 0 <= t < i ==> !ids@.contains(#[trigger] n@.tags[t].id),
        decreases n.tags@.len() - i,
    {
        proof {
            assert(n@.tags[i as int] == n.tags@[i as int]@);
        }
        if ids_contain(ids, n.tags[i].id) {
            proof {
                assert(ids@.contains(n@.tags[i as int].id));
            }
            return true;
        }
        i += 1;
    }
    false
}

/// Decides [`note_keep`] for one note; `search_lower` is the case-folded
/// search string.
fn note_keep_exec(n: &Note, search: &Option<String>, tag_ids: &Option<Vec<u32>>) -> (r: bool)
    ensures
        r == note_keep(n@, search_view(*search), ids_view(*tag_ids)),
{
    let search_ok = match search {
        Some(q) => {
            let ql = to_lower(q.as_str());
            let tl = to_lower(n.title.as_str());
            let cl = to_lower(n.content.as_str());
            str_contains(tl.as_str(), ql.as_str()) || str_contains(cl.as_str(), ql.as_str())
        },
        None => true,
    };
    let tags_ok = match tag_ids {
        Some(ids) => ids.len() == 0 || note_has_tag(n, ids),
        None => true,
    };
    search_ok && tags_ok
}

impl NoteManager {
    /// Lists the notes of a directory snapshot: every decodable note file,
    /// sorted by update time newest first (stably), filtered by the search
    /// string and tag ids, then paginated.  `total` counts the notes after
    /// filtering and before pagination.  Offset defaults to 0, limit to 50.
    pub fn list_notes(&self, files: &Vec<NoteFile>, params: ListNotesParams) -> (r: Result<
        ListNotesResponse,
        NoteError,
    >)
        requires
            self.wf(),
        ensures
            r is Ok,
            ({
                let all = sp_sort_notes(spec_scan_notes(self@, files_view(files@)));
                let kept = sp_filter_notes(
                    all,
                    search_view(params.search),
                    ids_view(params.tag_ids),
                );
                let off = match params.offset {
                    Some(o) => o as int,
                    None => 0,
                };
                let lim = match params.limit {
                    Some(l) => l as int,
                    None => 50,
                };
                &&& r->Ok_0.total == kept.len()
                &&& notes_view(r->Ok_0.notes@) == sp_page(kept, off, lim)
            }),
    {
        let ghost fv = files_view(files@);
        proof {
            assert(fv.take(0) =~= Seq::<NoteFileView>::empty());
        }
        let mut sorted: Vec<Note> = Vec::new();
        let mut i: usize = 0;
        while i < files.len()
            invariant
                self.wf(),
                i <= files.len(),
                fv == files_view(files@),
                fv.len() == files@.len(),
                notes_view(sorted@) == sp_sort_notes(spec_scan_notes(self@, fv.take(i as int))),
            decreases files.len() - i,
        {
            proof {
                assert(fv[i as int] == files@[i as int]@);
                assert(fv.take(i as int + 1).drop_last() =~= fv.take(i as int));
                assert(fv.take(i as int + 1).last() == fv[i as int]);
            }
            let f = &files[i];
            if has_md_extension(f.name.as_str()) {
                match parse_markdown_content(f.text.as_str()) {
                    Ok(p) => {
                        let (fm, body) = p;
                        let ghost scanned = spec_scan_notes(self@, fv.take(i as int));
                        let note = self.frontmatter_to_note(fm, body);
                        proof {
                            assert(spec_scan_notes(self@, fv.take(i as int + 1)) == scanned.push(
                                note@,
                            ));
                            assert(scanned.push(note@).drop_last() =~= scanned);
                            assert(scanned.push(note@).last() == note@);
                        }
                        insert_sorted(&mut sorted, note);
                    },
                    Err(_) => {
                        proof {
                            assert(note_of_file(fv[i as int]) is None);
                        }
                    },
                }
            } else {
                proof {
                    assert(note_of_file(fv[i as int]) is None);
                }
            }
            i += 1;
        }
        proof {
            assert(fv.take(files@.len() as int) =~= fv);
        }
        let ghost all = sp_sort_notes(spec_scan_notes(self@, fv));
        // Filter, keeping order.
        let mut kept: Vec<Note> = Vec::new();
        let ghost mut k: int = 0;
        proof {
            assert(all.take(0) =~= Seq::<NoteView>::empty());
            assert(notes_view(kept@) =~= sp_filter_notes(
                all.take(0),
                search_view(params.search),
                ids_view(params.tag_ids),
            ));
        }
        while sorted.len() > 0
            invariant
                0 <= k <= all.len(),
                notes_view(sorted@) == all.skip(k),
                notes_view(kept@) == sp_filter_notes(
                    all.take(k),
                    search_view(params.search),
                    ids_view(params.tag_ids),
                ),
            decreases sorted@.len(),
        {
            let ghost prev = sorted@;
            proof {
                assert(notes_view(prev).len() == prev.len());
            }
            let n = sorted.remove(0);
            proof {
                assert(n == prev[0]);
                assert(n@ == notes_view(prev)[0]);
                assert(n@ == all.skip(k)[0]);
                assert(n@ == all[k]);
                assert(sorted@ =~= prev.skip(1));
                assert(notes_view(sorted@) =~= notes_view(prev).skip(1));
                assert(notes_view(prev).skip(1) =~= all.skip(k + 1));
                assert(all.take(k + 1).drop_last() =~= all.take(k));
                assert(all.take(k + 1).last() == all[k]);
            }
            if note_keep_exec(&n, &params.search, &params.tag_ids) {
                kept.push(n);
                proof {
                    assert(notes_view(kept@) =~= sp_filter_notes(
                        all.take(k + 1),
                        search_view(params.search),
                        ids_view(params.tag_ids),
                    ));
                }
            } else {
                proof {
                    assert(notes_view(kept@) =~= sp_filter_notes(
                        all.take(k + 1),
                        search_view(params.search),
                        ids_view(params.tag_ids),
                    ));
                }
            }
            proof {
                k = k + 1;
            }
        }
        proof {
            assert(all.take(k) =~= all.take(all.len() as int));
            assert(all.take(all.len() as int) =~= all);
        }
        let ghost keptv = sp_filter_notes(all, search_view(params.search), ids_view(params.tag_ids));
        let total = kept.len();
        // Paginate.
        let offset = match params.offset {
            Some(o) => o,
            None => 0,
        };
        let limit = match params.limit {
            Some(l) => l,
            None => 50,
        };
        let start = if offset > total {
            total
        } else {
            offset
        };
        let take_n = if limit > total - start {
            total - start
        } else {
            limit
        };
        let mut page: Vec<Note> = Vec::new();
        let mut skipped: usize = 0;
        while skipped < start
            invariant
                start <= total == keptv.len(),
                skipped <= start,
                notes_view(kept@) == keptv.skip(skipped as int),
            decreases start - skipped,
        {
            proof {
                assert(notes_view(kept@).len() == kept@.len());
            }
            let _n = sorted_remove_front(&mut kept);
            proof {
                assert(keptv.skip(skipped as int).skip(1) =~= keptv.skip(skipped as int + 1));
            }
            skipped += 1;
        }
        let mut taken: usize = 0;
        proof {
            assert(keptv.subrange(start as int, start as int) =~= Seq::<NoteView>::empty());
            assert(notes_view(page@) =~= keptv.subrange(start as int, start as int));
        }
        while taken < take_n
            invariant
                start + take_n <= total == keptv.len(),
                taken <= take_n,
                notes_view(kept@) == keptv.skip(start + taken),
                notes_view(page@) == keptv.subrange(start as int, start + taken),
            decreases take_n - taken,
        {
            proof {
                assert(notes_view(kept@).len() == kept@.len());
            }
            let n = sorted_remove_front(&mut kept);
            proof {
                assert(n@ == keptv.skip(start + taken)[0]);
                assert(keptv.skip(start + taken)[0] == keptv[start + taken]);
                assert(keptv.skip(start + taken).skip(1) =~= keptv.skip(start + taken + 1));
            }
            let ghost prevp = page@;
            page.push(n);
            proof {
                assert(notes_view(page@) =~= notes_view(prevp).push(n@));
                assert(notes_view(prevp).push(n@) =~= keptv.subrange(
                    start as int,
                    start + taken + 1,
                ));
            }
            taken += 1;
        }
        proof {
            assert(sp_page(
                keptv,
                match params.offset {
                    Some(o) => o as int,
                    None => 0,
                },
                match params.limit {
                    Some(l) => l as int,
                    None => 50,
                },
            ) =~= keptv.subrange(start as int, start + take_n));
        }
        Ok(ListNotesResponse { notes: page, total })
    }
}

/// Removes and returns the front note of a non-empty vector.
fn sorted_remove_front(v: &mut Vec<Note>) -> (n: Note)
    requires
        old(v)@.len() > 0,
    ensures
        n == old(v)@[0],
        n@ == notes_view(old(v)@)[0],
        final(v)@ == old(v)@.skip(1),
        notes_view(final(v)@) == notes_view(old(v)@).skip(1),
{
    let n = v.remove(0);
    proof {
        assert(v@ =~= old(v)@.skip(1));
        assert(notes_view(v@) =~= notes_view(old(v)@).skip(1));
    }
    n
}

// ---------------------------------------------------------------------------
// Single-note operations.
// ---------------------------------------------------------------------------

/// The tag names a create or update request carries; none means an empty
/// list on create and "keep the old tags" on update.
pub open spec fn names_view(o: Option<Vec<String>>) -> Seq<Seq<char>> {
    match o {
        Some(v) => v.deep_view(),
        None => Seq::empty(),
    }
}

/// The tags a create or update stamps: each request name resolved against
/// the registry as it stands after all of them were resolved in order, each
/// stamped with `at`.
pub open spec fn spec_stamped_tags(
    reg2: Seq<Seq<char>>,
    names: Seq<Seq<char>>,
    at: Seq<char>,
) -> Seq<TagView> {
    Seq::new(
        names.len(),
        |i: int| TagView { id: spec_tag_id(reg2, names[i]), name: names[i], created_at: at },
    )
}

/// The note a create operation persists, given the moment `now`.
pub open spec fn spec_created_note(
    reg: Seq<Seq<char>>,
    files: Seq<NoteFileView>,
    data: CreateNoteRequest,
    now: Seq<char>,
) -> NoteView {
    let names = names_view(data.tag_names);
    NoteView {
        id: spec_next_id(files) as u32,
        title: data.title@,
        content: data.content@,
        tags: spec_stamped_tags(spec_resolve_all(reg, names), names, now),
        created_at: now,
        updated_at: now,
    }
}

/// Relies on chrono's `Utc::now` and `DateTime::to_rfc3339`: the current
/// instant, rendered as an RFC 3339 timestamp in UTC.  Nothing is assumed of
/// the value.
#[verifier::external_body]
fn now_rfc3339() -> String {
    chrono::Utc::now().to_rfc3339()
}

impl NoteManager {
    /// Resolves a list of request names in order, stamping each resulting
    /// tag with `at`.
    fn resolve_tags(&mut self, names: Vec<String>, at: &str) -> (tags: Vec<Tag>)
        requires
            old(self).wf(),
            old(self)@.len() + names.deep_view().len() < u32::MAX as int,
        ensures
            final(self).wf(),
            final(self)@ == spec_resolve_all(old(self)@, names.deep_view()),
            tags@.map_values(|t: Tag| t@) == spec_stamped_tags(
                spec_resolve_all(old(self)@, names.deep_view()),
                names.deep_view(),
                at@,
            ),
    {
        let ghost reg0 = self@;
        let ghost all = names.deep_view();
        let mut rest = names;
        let mut tags: Vec<Tag> = Vec::new();
        let ghost mut k: int = 0;
        proof {
            assert(all.take(0) =~= Seq::<Seq<char>>::empty());
        }
        while rest.len() > 0
            invariant
                0 <= k <= all.len(),
                rest.deep_view() =~= all.skip(k),
                self.wf(),
                reg_wf(reg0),
                reg0.len() + all.len() < u32::MAX as int,
                self@ == spec_resolve_all(reg0, all.take(k)),
                self@.len() <= reg0.len() + k,
                tags@.len() == k,
                forall|t: int|
                    0 <= t < k ==> reg_contains(self@, #[trigger] all[t]) && tags@[t]@ == (TagView {
                        id: spec_tag_id(self@, all[t]),
                        name: all[t],
                        created_at: at@,
                    }),
            decreases rest@.len(),
        {
            let ghost prevreg = self@;
            let ghost prevtags = tags@;
            let ghost prev = rest.deep_view();
            proof {
                assert(prev.len() == rest@.len());
            }
            let name = rest.remove(0);
            proof {
                assert(name@ == prev[0]);
                assert(name@ == all[k]);
                assert(rest.deep_view() =~= prev.skip(1));
                assert(prev.skip(1) =~= all.skip(k + 1));
                assert(all.take(k + 1).drop_last() =~= all.take(k));
                assert(all.take(k + 1).last() == all[k]);
            }
            let id = self.resolve_or_assign(&name);
            tags.push(Tag { id, name, created_at: String::from_str(at) });
            proof {
                lemma_resolve_learns(prevreg, all[k]);
                assert forall|t: int| 0 <= t < k implies reg_contains(self@, #[trigger] all[t])
                    && tags@[t]@ == (TagView {
                    id: spec_tag_id(self@, all[t]),
                    name: all[t],
                    created_at: at@,
                }) by {
                    assert(reg_contains(prevreg, all[t]));
                    assert(prevtags[t]@ == (TagView {
                        id: spec_tag_id(prevreg, all[t]),
                        name: all[t],
                        created_at: at@,
                    }));
                    lemma_resolve_keeps_id(prevreg, all[t], all[k]);
                    assert(tags@[t] == prevtags[t]);
                }
                assert(tags@[k]@ == (TagView {
                    id: spec_tag_id(self@, all[k]),
                    name: all[k],
                    created_at: at@,
                }));
                k = k + 1;
            }
        }
        proof {
            assert(all.take(k) =~= all);
            assert(tags@.map_values(|t: Tag| t@) =~= spec_stamped_tags(self@, all, at@));
        }
        tags
    }

    /// Retrieves one note: fails with `NotFound` when the file is absent
    /// (the snapshot hands `None`), and propagates decode failures.
    pub fn get_note_by_id(&self, id: u32, file: Option<&String>) -> (r: Result<
        GetNoteResponse,
        NoteError,
    >)
        requires
            self.wf(),
        ensures
            match file {
                None => r == Err::<GetNoteResponse, NoteError>(NoteError::NotFound(id)),
                Some(text) => match sp_decode(text@) {
                    Some(p) => r is Ok && r->Ok_0.note@ == spec_materialize(self@, p.0, p.1),
                    None => r is Err && (if sp_shape(text@) {
                        r->Err_0 is Metadata
                    } else {
                        r->Err_0 is InvalidFrontmatter
                    }),
                },
            },
    {
        match file {
            None => Err(NoteError::NotFound(id)),
            Some(text) => match parse_markdown_content(text.as_str()) {
                Ok(p) => {
                    let (fm, body) = p;
                    Ok(GetNoteResponse { note: self.frontmatter_to_note(fm, body) })
                },
                Err(e) => Err(e),
            },
        }
    }

    /// Creates a note at the given moment: its id is one past the largest
    /// numeric file stem, both timestamps are `now`, and each request tag
    /// name is resolved through the registry in order.  Writing
    /// `encode_note` of the returned note to its file name persists it.
    pub fn create_note_at(&mut self, files: &Vec<NoteFile>, data: CreateNoteRequest, now: &str)
        -> (r: CreateNoteResponse)
        requires
            old(self).wf(),
            spec_max_id(files_view(files@)) < u32::MAX as int,
            old(self)@.len() + names_view(data.tag_names).len() < u32::MAX as int,
        ensures
            final(self).wf(),
            final(self)@ == spec_resolve_all(old(self)@, names_view(data.tag_names)),
            r.note@ == spec_created_note(old(self)@, files_view(files@), data, now@),
    {
        let id = self.get_next_note_id(files);
        let names: Vec<String> = match data.tag_names {
            Some(v) => v,
            None => Vec::new(),
        };
        proof {
            if data.tag_names is None {
                assert(names.deep_view() =~= Seq::<Seq<char>>::empty());
            }
        }
        let tags = self.resolve_tags(names, now);
        let note = Note {
            id,
            title: data.title,
            content: data.content,
            tags,
            created_at: String::from_str(now),
            updated_at: String::from_str(now),
        };
        proof {
            assert(note@ =~= spec_created_note(old(self)@, files_view(files@), data, now@));
        }
        CreateNoteResponse { note }
    }

    /// Creates a note stamped with the current time.  Both timestamps carry
    /// the one instant that was drawn.
    pub fn create_note(&mut self, files: &Vec<NoteFile>, data: CreateNoteRequest) -> (r: Result<
        CreateNoteResponse,
        NoteError,
    >)
        requires
            old(self).wf(),
            spec_max_id(files_view(files@)) < u32::MAX as int,
            old(self)@.len() + names_view(data.tag_names).len() < u32::MAX as int,
        ensures
            final(self).wf(),
            final(self)@ == spec_resolve_all(old(self)@, names_view(data.tag_names)),
            r is Ok,
            ({
                let n = r->Ok_0.note@;
                &&& n.created_at == n.updated_at
                &&& n == spec_created_note(old(self)@, files_view(files@), data, n.created_at)
            }),
    {
        let now = now_rfc3339();
        Ok(self.create_note_at(files, data, now.as_str()))
    }

    /// Applies a partial update at the given moment: absent fields keep
    /// their prior values; a present tag list replaces the old one entirely,
    /// stamped with the note's original creation time; `updatedAt` is always
    /// refreshed to `now`.  Fails with `NotFound` when the file is absent.
    pub fn update_note_at(
        &mut self,
        id: u32,
        file: Option<&String>,
        data: UpdateNoteRequest,
        now: &str,
    ) -> (r: Result<UpdateNoteResponse, NoteError>)
        requires
            old(self).wf(),
            old(self)@.len() + names_view(data.tag_names).len() < u32::MAX as int,
        ensures
            final(self).wf(),
            match file {
                None => r == Err::<UpdateNoteResponse, NoteError>(NoteError::NotFound(id))
                    && final(self)@ == old(self)@,
                Some(text) => match sp_decode(text@) {
                    None => final(self)@ == old(self)@ && r is Err && (if sp_shape(text@) {
                        r->Err_0 is Metadata
                    } else {
                        r->Err_0 is InvalidFrontmatter
                    }),
                    Some(p) => ({
                        let base = spec_materialize(old(self)@, p.0, p.1);
                        let names = names_view(data.tag_names);
                        let reg2 = spec_resolve_all(old(self)@, names);
                        &&& r is Ok
                        &&& final(self)@ == (if data.tag_names is Some {
                            reg2
                        } else {
                            old(self)@
                        })
                        &&& ({
                            let n = r->Ok_0.note@;
                            &&& n.id == base.id
                            &&& n.title == (match data.title {
                                Some(t) => t@,
                                None => base.title,
                            })
                            &&& n.content == (match data.content {
                                Some(c) => c@,
                                None => base.content,
                            })
                            &&& n.tags == (if data.tag_names is Some {
                                spec_stamped_tags(reg2, names, base.created_at)
                            } else {
                                base.tags
                            })
                            &&& n.created_at == base.created_at
                            &&& n.updated_at == now@
                        })
                    }),
                },
            },
    {
        let text = match file {
            None => {
                return Err(NoteError::NotFound(id));
            },
            Some(text) => text,
        };
        let (fm, body) = match parse_markdown_content(text.as_str()) {
            Ok(p) => p,
            Err(e) => {
                return Err(e);
            },
        };
        let mut note = self.frontmatter_to_note(fm, body);
        if let Some(title) = data.title {
            note.title = title;
        }
        if let Some(content) = data.content {
            note.content = content;
        }
        if let Some(names) = data.tag_names {
            let created = note.created_at.clone();
            note.tags = self.resolve_tags(names, created.as_str());
        }
        note.updated_at = String::from_str(now);
        Ok(UpdateNoteResponse { note })
    }

    /// Applies a partial update stamped with the current time: everything of
    /// [`Self::update_note_at`] holds, with `updatedAt` carrying the drawn
    /// instant.
    pub fn update_note(&mut self, id: u32, file: Option<&String>, data: UpdateNoteRequest) -> (r:
        Result<UpdateNoteResponse, NoteError>)
        requires
            old(self).wf(),
            old(self)@.len() + names_view(data.tag_names).len() < u32::MAX as int,
        ensures
            final(self).wf(),
            match file {
                None => r == Err::<UpdateNoteResponse, NoteError>(NoteError::NotFound(id))
                    && final(self)@ == old(self)@,
                Some(text) => match sp_decode(text@) {
                    None => final(self)@ == old(self)@ && r is Err && (if sp_shape(text@) {
                        r->Err_0 is Metadata
                    } else {
                        r->Err_0 is InvalidFrontmatter
                    }),
                    Some(p) => ({
                        let base = spec_materialize(old(self)@, p.0, p.1);
                        let names = names_view(data.tag_names);
                        let reg2 = spec_resolve_all(old(self)@, names);
                        &&& r is Ok
                        &&& final(self)@ == (if data.tag_names is Some {
                            reg2
                        } else {
                            old(self)@
                        })
                        &&& ({
                            let n = r->Ok_0.note@;
                            &&& n.id == base.id
                            &&& n.title == (match data.title {
                                Some(t) => t@,
                                None => base.title,
                            })
                            &&& n.content == (match data.content {
                                Some(c) => c@,
                                None => base.content,
                            })
                            &&& n.tags == (if data.tag_names is Some {
                                spec_stamped_tags(reg2, names, base.created_at)
                            } else {
                                base.tags
                            })
                            &&& n.created_at == base.created_at
                        })
                    }),
                },
            },
    {
        let now = now_rfc3339();
        self.update_note_at(id, file, data, now.as_str())
    }

    /// Deletes a note: the caller removes the file on success.  Fails with
    /// `NotFound` when the file is absent; no state changes either way.
    pub fn delete_note(&mut self, id: u32, present: bool) -> (r: Result<
        DeleteNoteResponse,
        NoteError,
    >)
        ensures
            *final(self) == *old(self),
            present ==> r is Ok && r->Ok_0.success,
            !present ==> r == Err::<DeleteNoteResponse, NoteError>(NoteError::NotFound(id)),
    {
        if !present {
            return Err(NoteError::NotFound(id));
        }
        Ok(DeleteNoteResponse { success: true })
    }

    /// Every tag the registry knows, stamped with the given moment.
    pub fn list_tags_at(&self, now: &str) -> (r: ListTagsResponse)
        requires
            self.wf(),
        ensures
            r.tags@.map_values(|t: Tag| t@) == Seq::new(
                self@.len(),
                |i: int| TagView { id: (i + 1) as u32, name: self@[i], created_at: now@ },
            ),
    {
        let mut tags: Vec<Tag> = Vec::new();
        let mut i: usize = 0;
        while i < self.tag_names.len()
            invariant
                self.wf(),
                self@.len() == self.tag_names@.len(),
                i <= self@.len(),
                tags@.len() == i,
                forall|t: int|
                    0 <= t < i ==> #[trigger] tags@[t]@ == (TagView {
                        id: (t + 1) as u32,
                        name: self@[t],
                        created_at: now@,
                    }),
            decreases self.tag_names@.len() - i,
        {
            proof {
                assert(self@[i as int] == self.tag_names@[i as int]@);
            }
            tags.push(
                Tag {
                    id: i as u32 + 1,
                    name: self.tag_names[i].clone(),
                    created_at: String::from_str(now),
                },
            );
            i += 1;
        }
        proof {
            assert(tags@.map_values(|t: Tag| t@) =~= Seq::new(
                self@.len(),
                |t: int| TagView { id: (t + 1) as u32, name: self@[t], created_at: now@ },
            ));
        }
        ListTagsResponse { tags }
    }

    /// Every tag the registry knows, stamped with the current time.
    pub fn list_tags(&self) -> (r: Result<ListTagsResponse, NoteError>)
        requires
            self.wf(),
        ensures
            r is Ok,
            ({
                let ts = r->Ok_0.tags@;
                &&& ts.len() == self@.len()
                &&& forall|i: int|
                    0 <= i < ts.len() ==> (#[trigger] ts[i])@.id == i + 1 && ts[i]@.name == self@[i]
                &&& forall|i: int, j: int|
                    0 <= i < ts.len() && 0 <= j < ts.len() ==> (#[trigger] ts[i])@.created_at == (
                    #[trigger] ts[j])@.created_at
            }),
    {
        let now = now_rfc3339();
        let r = self.list_tags_at(now.as_str());
        proof {
            assert(r.tags@.len() == self@.len()) by {
                assert(r.tags@.map_values(|t: Tag| t@).len() == r.tags@.len());
            }
            assert forall|i: int| 0 <= i < r.tags@.len() implies (#[trigger] r.tags@[i])@.id == i
                + 1 && r.tags@[i]@.name == self@[i] && r.tags@[i]@.created_at == now@ by {
                assert(r.tags@.map_values(|t: Tag| t@)[i] == r.tags@[i]@);
            }
        }
        Ok(r)
    }
}

// ---------------------------------------------------------------------------
// Laws.
// ---------------------------------------------------------------------------

/// Round trip: encoding a note and decoding the text yields the metadata and
/// body that were written, and materializing against any registry preserves
/// id, title, content, tag names and both timestamps (tag ids come from the
/// registry at hand).  Bodies that open with a newline are out: decoding
/// trims leading newlines off the body.
pub proof fn lemma_note_round_trip(reg: Seq<Seq<char>>, n: NoteView)
    requires
        n.content.len() == 0 || n.content[0] != '\n',
    ensures
        sp_decode(sp_encode(fm_of(n), n.content)) == Some((fm_of(n), n.content)),
        ({
            let m = spec_materialize(reg, fm_of(n), n.content);
            &&& m.id == n.id
            &&& m.title == n.title
            &&& m.content == n.content
            &&& m.created_at == n.created_at
            &&& m.updated_at == n.updated_at
            &&& m.tags.len() == n.tags.len()
            &&& forall|i: int| 0 <= i < n.tags.len() ==> #[trigger] m.tags[i].name == n.tags[i].name
            &&& (forall|i: int|
                0 <= i < n.tags.len() ==> (#[trigger] n.tags[i]).id == spec_tag_id(
                    reg,
                    n.tags[i].name,
                ) && n.tags[i].created_at == n.created_at) ==> m == n
        }),
{
    crate::codec::lemma_decode_encode(fm_of(n), n.content);
    let m = spec_materialize(reg, fm_of(n), n.content);
    if forall|i: int|
        0 <= i < n.tags.len() ==> (#[trigger] n.tags[i]).id == spec_tag_id(reg, n.tags[i].name)
            && n.tags[i].created_at == n.created_at {
        assert forall|i: int| 0 <= i < n.tags.len() implies #[trigger] m.tags[i] == n.tags[i] by {
            assert(n.tags[i].id == spec_tag_id(reg, n.tags[i].name));
            assert(m.tags[i] =~= n.tags[i]);
        }
        assert(m.tags =~= n.tags);
        assert(m =~= n);
    }
}

/// Tag id stability within a session: resolving the same name twice hands
/// out the same id, whatever happened to the registry in between through
/// further resolutions.
pub proof fn lemma_tag_id_stable(reg: Seq<Seq<char>>, name: Seq<char>, others: Seq<Seq<char>>)
    ensures
        ({
            let once = spec_resolve(reg, name);
            let later = spec_resolve_all(once.0, others);
            spec_resolve(later, name).1 == once.1
        }),
{
    lemma_resolve_learns(reg, name);
    lemma_resolve_all_keeps_id(spec_resolve(reg, name).0, name, others);
}

} // verus!
