//! Control-file paragraphs: typed field values, key/value entries, and the
//! paragraphs and files that hold them. Reading and writing the files
//! themselves is left to the callers; this module parses lines already read
//! and renders the text to be written.

use vstd::prelude::*;

use crate::text::{eq_str, find_char, find_char_str, lemma_find_char, trim_spec, trim_str};

verus! {

use vstd::string::StrSliceExecFns;
use vstd::string::StringExecFns;

pub use crate::deps::{
    parse_dep_list, parse_single_dep, DepError, Dependency, SingleDependency, VRel,
};

/// A value in a field of a control file.
#[derive(Debug, Clone)]
pub enum ControlValue {
    /// A simple string value.
    Simple(String),
    /// A folded string value.
    Folded(String),
    /// A multiline string value.
    MultiLine(String),
}

/// The mathematical value of a `ControlValue`.
pub ghost enum ValueModel {
    Simple(Seq<char>),
    Folded(Seq<char>),
    MultiLine(Seq<char>),
}

impl View for ControlValue {
    type V = ValueModel;

    open spec fn view(&self) -> ValueModel {
        match self {
            ControlValue::Simple(v) => ValueModel::Simple(v@),
            ControlValue::Folded(v) => ValueModel::Folded(v@),
            ControlValue::MultiLine(v) => ValueModel::MultiLine(v@),
        }
    }
}

/// The text a value holds, whatever its kind.
pub open spec fn value_text(m: ValueModel) -> Seq<char> {
    match m {
        ValueModel::Simple(v) => v,
        ValueModel::Folded(v) => v,
        ValueModel::MultiLine(v) => v,
    }
}

/// The keys whose values are simple one-line strings.
pub open spec fn is_simple_key(key: Seq<char>) -> bool {
    ||| key == "Architecture"@
    ||| key == "Built-Using"@
    ||| key == "Changed-By"@
    ||| key == "Essential"@
    ||| key == "Homepage"@
    ||| key == "Installed-Size"@
    ||| key == "Maintainer"@
    ||| key == "Package"@
    ||| key == "Package-Type"@
    ||| key == "Priority"@
    ||| key == "Section"@
    ||| key == "Source"@
    ||| key == "Standards-Version"@
    ||| key == "Vcs-Browser"@
    ||| key == "Vcs-Git"@
    ||| key == "Version"@
}

/// The keys whose values are folded: logical lines split over several
/// physical ones.
pub open spec fn is_folded_key(key: Seq<char>) -> bool {
    ||| key == "Binaries"@
    ||| key == "Breaks"@
    ||| key == "Build-Depends"@
    ||| key == "Build-Depends-Indep"@
    ||| key == "Depends"@
    ||| key == "Dgit"@
    ||| key == "Pre-Depends"@
    ||| key == "Recommends"@
    ||| key == "Replaces"@
    ||| key == "Suggests"@
    ||| key == "Uploaders"@
}

/// The kind a value takes from its key: folded for relationship fields,
/// multiline for the description, simple for everything else.
pub open spec fn spec_control_value(key: Seq<char>, val: Seq<char>) -> ValueModel {
    if is_simple_key(key) {
        ValueModel::Simple(val)
    } else if is_folded_key(key) {
        ValueModel::Folded(val)
    } else if key == "Description"@ {
        ValueModel::MultiLine(val)
    } else {
        ValueModel::Simple(val)
    }
}

impl ControlValue {
    /// Creates a `ControlValue` from a `String`, choosing its kind from the
    /// key.
    pub fn new(key: &str, val: String) -> (r: ControlValue)
        ensures
            r@ == spec_control_value(key@, val@),
    {
        if eq_str(key, "Architecture") || eq_str(key, "Built-Using") || eq_str(key, "Changed-By")
            || eq_str(key, "Essential") || eq_str(key, "Homepage") || eq_str(key, "Installed-Size")
            || eq_str(key, "Maintainer") || eq_str(key, "Package") || eq_str(key, "Package-Type")
            || eq_str(key, "Priority") || eq_str(key, "Section") || eq_str(key, "Source") || eq_str(
            key,
            "Standards-Version",
        ) || eq_str(key, "Vcs-Browser") || eq_str(key, "Vcs-Git") || eq_str(key, "Version") {
            ControlValue::Simple(val)
        } else if eq_str(key, "Binaries") || eq_str(key, "Breaks") || eq_str(key, "Build-Depends")
            || eq_str(key, "Build-Depends-Indep") || eq_str(key, "Depends") || eq_str(key, "Dgit")
            || eq_str(key, "Pre-Depends") || eq_str(key, "Recommends") || eq_str(key, "Replaces")
            || eq_str(key, "Suggests") || eq_str(key, "Uploaders") {
            ControlValue::Folded(val)
        } else if eq_str(key, "Description") {
            ControlValue::MultiLine(val)
        } else {
            ControlValue::Simple(val)
        }
    }
}

/// A single field of a control file: a key and its value.
#[derive(Debug, Clone)]
pub struct ControlEntry {
    key: String,
    value: ControlValue,
}

/// The mathematical value of a `ControlEntry`.
pub ghost struct EntryModel {
    pub key: Seq<char>,
    pub value: ValueModel,
}

impl View for ControlEntry {
    type V = EntryModel;

    closed spec fn view(&self) -> EntryModel {
        EntryModel { key: self.key@, value: self.value@ }
    }
}

impl ControlEntry {
    /// Creates a new `ControlEntry` given a key-value pair.
    pub fn new(key: &str, val: String) -> (r: ControlEntry)
        ensures
            r@ == (EntryModel { key: key@, value: spec_control_value(key@, val@) }),
    {
        ControlEntry { key: String::from_str(key), value: ControlValue::new(key, val) }
    }
}

/// A paragraph: the entries of one stanza of a control file, in order.
#[derive(Debug, Clone)]
pub struct ControlParagraph {
    entries: Vec<ControlEntry>,
}

impl View for ControlParagraph {
    type V = Seq<EntryModel>;

    closed spec fn view(&self) -> Seq<EntryModel> {
        Seq::new(self.entries@.len(), |i: int| self.entries@[i]@)
    }
}

/// The first entry carrying the given key, if any.
pub open spec fn find_entry(entries: Seq<EntryModel>, key: Seq<char>) -> Option<int>
    decreases entries.len(),
{
    if entries.len() == 0 {
        None
    } else if entries[0].key == key {
        Some(0int)
    } else {
        match find_entry(entries.drop_first(), key) {
            None => None,
            Some(i) => Some(i + 1),
        }
    }
}

/// What `find_entry` returns: the first position whose key matches.
pub proof fn lemma_find_entry(entries: Seq<EntryModel>, key: Seq<char>)
    ensures
        match find_entry(entries, key) {
            Some(i) => 0 <= i < entries.len() && entries[i].key == key && forall|j: int|
                0 <= j < i ==> entries[j].key != key,
            None => forall|j: int| 0 <= j < entries.len() ==> entries[j].key != key,
        },
    decreases entries.len(),
{
    if entries.len() > 0 && entries[0].key != key {
        lemma_find_entry(entries.drop_first(), key);
        assert(forall|j: int|
            1 <= j < entries.len() ==> entries[j] == entries.drop_first()[j - 1]);
    }
}

impl Default for ControlParagraph {
    /// A paragraph with no entries.
    fn default() -> (r: ControlParagraph)
        ensures
            r@ == Seq::<EntryModel>::empty(),
    {
        let r = ControlParagraph { entries: Vec::new() };
        proof {
            assert(r@ =~= Seq::<EntryModel>::empty());
        }
        r
    }
}

impl ControlParagraph {
    /// Creates a new `ControlParagraph`.
    pub fn new() -> (r: ControlParagraph)
        ensures
            r@ == Seq::<EntryModel>::empty(),
    {
        let r = ControlParagraph { entries: Vec::new() };
        proof {
            assert(r@ =~= Seq::<EntryModel>::empty());
        }
        r
    }

    /// Appends an entry at the end of the paragraph.
    pub fn add_entry(&mut self, key: &str, val: String)
        ensures
            final(self)@ == old(self)@.push(
                EntryModel { key: key@, value: spec_control_value(key@, val@) },
            ),
    {
        let e = ControlEntry::new(key, val);
        self.entries.push(e);
        proof {
            assert(final(self)@ =~= old(self)@.push(
                EntryModel { key: key@, value: spec_control_value(key@, val@) },
            ));
        }
    }

    /// Updates the first entry carrying the key, or appends a new one.
    /// Returns whether an entry was found and replaced.
    pub fn update_entry(&mut self, key: &str, val: String) -> (r: bool)
        ensures
            match find_entry(old(self)@, key@) {
                Some(i) => r && final(self)@ == old(self)@.update(
                    i,
                    EntryModel { key: old(self)@[i].key, value: spec_control_value(key@, val@) },
                ),
                None => !r && final(self)@ == old(self)@.push(
                    EntryModel { key: key@, value: spec_control_value(key@, val@) },
                ),
            },
    {
        let n = self.entries.len();
        let mut i: usize = 0;
        while i < n
            invariant
                0 <= i <= n,
                n == self.entries@.len(),
                self == old(self),
                forall|j: int| 0 <= j < i ==> old(self)@[j].key != key@,
            decreases n - i,
        {
            if eq_str(self.entries[i].key.as_str(), key) {
                proof {
                    lemma_find_entry(old(self)@, key@);
                    assert(self@[i as int] == self.entries@[i as int]@);
                    assert(self@[i as int].key == key@);
                }
                let value = ControlValue::new(key, val);
                let ghost pre = self@;
                let entry_key = String::from_str(self.entries[i].key.as_str());
                self.entries.set(i, ControlEntry { key: entry_key, value });
                proof {
                    assert(find_entry(old(self)@, key@) == Some(i as int));
                    assert(final(self)@ =~= pre.update(
                        i as int,
                        EntryModel {
                            key: old(self)@[i as int].key,
                            value: spec_control_value(key@, val@),
                        },
                    ));
                }
                return true;
            }
            i += 1;
        }
        proof {
            lemma_find_entry(old(self)@, key@);
        }
        // no entry carries the key: append one
        self.add_entry(key, val);
        false
    }

    /// Whether an entry with the given key exists in the paragraph.
    pub fn has_entry(&self, key: &str) -> (r: bool)
        ensures
            r == (find_entry(self@, key@) is Some),
    {
        let n = self.entries.len();
        let mut i: usize = 0;
        while i < n
            invariant
                0 <= i <= n,
                n == self.entries@.len(),
                forall|j: int| 0 <= j < i ==> self@[j].key != key@,
            decreases n - i,
        {
            if eq_str(self.entries[i].key.as_str(), key) {
                proof {
                    lemma_find_entry(self@, key@);
                    assert(self@[i as int] == self.entries@[i as int]@);
                    assert(self@[i as int].key == key@);
                }
                return true;
            }
            i += 1;
        }
        proof {
            lemma_find_entry(self@, key@);
        }
        false
    }

    /// The text of the first entry with the given key, if any.
    pub fn get_entry(&self, key: &str) -> (r: Option<&str>)
        ensures
            match find_entry(self@, key@) {
                Some(i) => r is Some && r->0@ == value_text(self@[i].value),
                None => r is None,
            },
    {
        let n = self.entries.len();
        let mut i: usize = 0;
        while i < n
            invariant
                0 <= i <= n,
                n == self.entries@.len(),
                forall|j: int| 0 <= j < i ==> self@[j].key != key@,
            decreases n - i,
        {
            if eq_str(self.entries[i].key.as_str(), key) {
                proof {
                    lemma_find_entry(self@, key@);
                    assert(self@[i as int] == self.entries@[i as int]@);
                    assert(self@[i as int].key == key@);
                    assert(find_entry(self@, key@) == Some(i as int));
                }
                let r = match &self.entries[i].value {
                    ControlValue::Simple(v) => v.as_str(),
                    ControlValue::Folded(v) => v.as_str(),
                    ControlValue::MultiLine(v) => v.as_str(),
                };
                return Some(r);
            }
            i += 1;
        }
        proof {
            lemma_find_entry(self@, key@);
        }
        None
    }

    /// Whether the paragraph holds any entry at all.
    pub fn has_any_entry(&self) -> (r: bool)
        ensures
            r == (self@.len() > 0),
    {
        self.entries.len() > 0
    }
}

/// A control file: its paragraphs in order.
#[derive(Debug)]
pub struct ControlFile {
    paragraphs: Vec<ControlParagraph>,
}

impl View for ControlFile {
    type V = Seq<Seq<EntryModel>>;

    closed spec fn view(&self) -> Seq<Seq<EntryModel>> {
        Seq::new(self.paragraphs@.len(), |i: int| self.paragraphs@[i]@)
    }
}

/// The paragraphs a vector of them stands for.
pub open spec fn paragraphs_view(v: &Vec<ControlParagraph>) -> Seq<Seq<EntryModel>> {
    Seq::new(v@.len(), |i: int| v@[i]@)
}

/// The lines a vector of strings stands for.
pub open spec fn lines_view(v: &Vec<String>) -> Seq<Seq<char>> {
    Seq::new(v@.len(), |i: int| v@[i]@)
}

/// A physical line ends the current paragraph when nothing but white space
/// is on it.
pub open spec fn line_ends_paragraph(l: Seq<char>) -> bool {
    trim_spec(l).len() == 0
}

/// A physical line continues the entry above it when it starts with a space
/// and holds more than that space.
pub open spec fn line_is_indented(l: Seq<char>) -> bool {
    l.len() > 1 && l[0] == ' '
}

/// The entry a collected logical line adds to the open paragraph: the text
/// before the first colon is the key, the trimmed text after it the value.
/// A line without a colon is malformed and adds nothing.
pub open spec fn finish_entry(v: Seq<char>, para: Seq<EntryModel>) -> Seq<EntryModel> {
    match find_char(v, ':') {
        Some(i) => para.push(
            EntryModel {
                key: v.take(i),
                value: spec_control_value(v.take(i), trim_spec(v.subrange(i + 1, v.len() as int))),
            },
        ),
        None => para,
    }
}

/// The paragraph-reader state: the logical line still being collected, the
/// open paragraph, and the paragraphs already closed.
pub ghost struct FileScan {
    pub cur_entry: Option<Seq<char>>,
    pub cur_para: Seq<EntryModel>,
    pub paragraphs: Seq<Seq<EntryModel>>,
}

/// Where the paragraph reader starts: nothing collected.
pub open spec fn init_file_scan() -> FileScan {
    FileScan { cur_entry: None, cur_para: Seq::empty(), paragraphs: Seq::empty() }
}

/// One line applied to the reader state: an unindented line closes the
/// collected entry, an indented one extends it, and a blank line closes the
/// open paragraph.
pub open spec fn file_line_step(st: FileScan, line: Seq<char>) -> FileScan {
    let ends = line_ends_paragraph(line);
    let ind = line_is_indented(line);
    let stepped = match st.cur_entry {
        Some(v) => if !ind {
            FileScan {
                cur_entry: if ends { None } else { Some(line) },
                cur_para: finish_entry(v, st.cur_para),
                paragraphs: st.paragraphs,
            }
        } else if !ends {
            FileScan { cur_entry: Some(v + line), ..st }
        } else {
            FileScan { cur_entry: None, ..st }
        },
        None => FileScan {
            cur_entry: if ends { None } else { Some(line) },
            ..st
        },
    };
    if ends && stepped.cur_para.len() > 0 {
        FileScan {
            cur_entry: stepped.cur_entry,
            cur_para: Seq::empty(),
            paragraphs: stepped.paragraphs.push(stepped.cur_para),
        }
    } else {
        stepped
    }
}

/// The reader run over all lines in order.
pub open spec fn file_scan_from(st0: FileScan, lines: Seq<Seq<char>>) -> FileScan
    decreases lines.len(),
{
    if lines.len() == 0 {
        st0
    } else {
        file_line_step(file_scan_from(st0, lines.drop_last()), lines.last())
    }
}

/// The paragraphs that a control file's lines hold. The lines come as a
/// line-oriented reader yields them, each still carrying its terminator; a
/// final empty read, as at end of file, closes whatever is still open.
pub open spec fn spec_control_file(lines: Seq<Seq<char>>) -> Seq<Seq<EntryModel>> {
    file_line_step(file_scan_from(init_file_scan(), lines), Seq::empty()).paragraphs
}

/// The reader state the parser's local variables stand for.
spec fn cur_file_scan(
    cur_entry: &Option<String>,
    cur_para: &ControlParagraph,
    paragraphs: &Vec<ControlParagraph>,
) -> FileScan {
    FileScan {
        cur_entry: match cur_entry {
            Some(v) => Some(v@),
            None => None,
        },
        cur_para: cur_para@,
        paragraphs: paragraphs_view(paragraphs),
    }
}

/// Closes the collected logical line into the open paragraph.
fn finish_entry_exec(v: &String, cur_para: &mut ControlParagraph)
    ensures
        final(cur_para)@ == finish_entry(v@, old(cur_para)@),
{
    proof {
        lemma_find_char(v@, ':');
    }
    let vn = v.unicode_len();
    match find_char_str(v.as_str(), ':') {
        Some(k) => {
            let key = v.as_str().substring_char(0, k);
            let val = trim_str(v.as_str().substring_char(k + 1, vn));
            cur_para.add_entry(key, String::from_str(val));
            proof {
                assert(key@ =~= v@.take(k as int));
            }
        },
        None => {
            // a line without a colon is malformed and dropped
        },
    }
}

impl Default for ControlFile {
    /// A control file with no paragraphs.
    fn default() -> (r: ControlFile)
        ensures
            r@ == Seq::<Seq<EntryModel>>::empty(),
    {
        let r = ControlFile { paragraphs: Vec::new() };
        proof {
            assert(r@ =~= Seq::<Seq<EntryModel>>::empty());
        }
        r
    }
}

impl ControlFile {
    /// Creates a new `ControlFile`.
    pub fn new() -> (r: ControlFile)
        ensures
            r@ == Seq::<Seq<EntryModel>>::empty(),
    {
        let r = ControlFile { paragraphs: Vec::new() };
        proof {
            assert(r@ =~= Seq::<Seq<EntryModel>>::empty());
        }
        r
    }

    /// Appends a paragraph at the end of the file.
    pub fn add_paragraph(&mut self, p: ControlParagraph)
        ensures
            final(self)@ == old(self)@.push(p@),
    {
        let ghost pv = p@;
        self.paragraphs.push(p);
        proof {
            assert(final(self)@ =~= old(self)@.push(pv));
        }
    }

    /// The paragraphs of the file, in order.
    pub fn get_paragraphs(&self) -> (r: &Vec<ControlParagraph>)
        ensures
            r@.len() == self@.len(),
            forall|i: int| 0 <= i < self@.len() ==> r@[i]@ == self@[i],
    {
        &self.paragraphs
    }

    /// Folds the lines of a control file into paragraphs of entries. The
    /// lines come as a line-oriented reader yields them, terminators kept.
    pub fn from_lines(lines: &Vec<String>) -> (r: ControlFile)
        ensures
            r@ == spec_control_file(lines_view(lines)),
    {
        let n = lines.len();
        let mut cur_entry: Option<String> = None;
        let mut cur_para = ControlParagraph::new();
        let mut paragraphs: Vec<ControlParagraph> = Vec::new();
        let mut i: usize = 0;
        proof {
            assert(lines_view(lines).take(0int) =~= Seq::<Seq<char>>::empty());
            assert(paragraphs_view(&paragraphs) =~= Seq::<Seq<EntryModel>>::empty());
            assert(cur_file_scan(&cur_entry, &cur_para, &paragraphs) == init_file_scan());
        }
        while i < n
            invariant
                0 <= i <= n,
                n == lines@.len(),
                cur_file_scan(&cur_entry, &cur_para, &paragraphs) == file_scan_from(
                    init_file_scan(),
                    lines_view(lines).take(i as int),
                ),
            decreases n - i,
        {
            let ghost st_pre = cur_file_scan(&cur_entry, &cur_para, &paragraphs);
            let line = &lines[i];
            let ln = line.unicode_len();
            let ends = trim_str(line.as_str()).unicode_len() == 0;
            let ind = ln > 1 && line.as_str().get_char(0) == ' ';
            let prev = cur_entry;
            match prev {
                Some(v) => {
                    if !ind {
                        finish_entry_exec(&v, &mut cur_para);
                        cur_entry = if ends {
                            None
                        } else {
                            Some(String::from_str(line.as_str()))
                        };
                    } else if !ends {
                        cur_entry = Some(v.concat(line.as_str()));
                    } else {
                        cur_entry = None;
                    }
                },
                None => {
                    cur_entry = if ends {
                        None
                    } else {
                        Some(String::from_str(line.as_str()))
                    };
                },
            }
            if ends && cur_para.has_any_entry() {
                paragraphs.push(cur_para);
                cur_para = ControlParagraph::new();
                proof {
                    assert(paragraphs_view(&paragraphs) =~= st_pre.paragraphs.push(
                        paragraphs@[paragraphs@.len() - 1]@,
                    ));
                }
            }
            proof {
                let st_post = cur_file_scan(&cur_entry, &cur_para, &paragraphs);
                assert(st_post == file_line_step(st_pre, lines_view(lines)[i as int]));
                assert(lines_view(lines).take(i + 1).drop_last() =~= lines_view(lines).take(
                    i as int,
                ));
                assert(lines_view(lines).take(i + 1).last() == lines_view(lines)[i as int]);
            }
            i += 1;
        }
        proof {
            assert(lines_view(lines).take(n as int) =~= lines_view(lines));
        }
        // end of input: one empty read closes whatever is still open
        let ghost st_end = cur_file_scan(&cur_entry, &cur_para, &paragraphs);
        proof {
            assert(trim_spec(Seq::<char>::empty()).len() == 0);
            assert(line_ends_paragraph(Seq::<char>::empty()));
            assert(!line_is_indented(Seq::<char>::empty()));
        }
        match cur_entry {
            Some(v) => {
                finish_entry_exec(&v, &mut cur_para);
            },
            None => {},
        }
        if cur_para.has_any_entry() {
            let ghost closing = cur_para@;
            paragraphs.push(cur_para);
            proof {
                assert(paragraphs_view(&paragraphs) =~= st_end.paragraphs.push(closing));
            }
            let r = ControlFile { paragraphs };
            proof {
                assert(r@ =~= paragraphs_view(&r.paragraphs));
            }
            r
        } else {
            let r = ControlFile { paragraphs };
            proof {
                assert(r@ =~= paragraphs_view(&r.paragraphs));
            }
            r
        }
    }
}

/// The text of one entry: `key: value` and a newline.
pub open spec fn render_entry(e: EntryModel) -> Seq<char> {
    e.key + seq![':', ' '] + value_text(e.value) + seq!['\n']
}

/// The text of one paragraph: its entries, one per logical line.
pub open spec fn render_paragraph(p: Seq<EntryModel>) -> Seq<char>
    decreases p.len(),
{
    if p.len() == 0 {
        Seq::empty()
    } else {
        render_entry(p[0]) + render_paragraph(p.drop_first())
    }
}

/// The text of a whole control file: each paragraph followed by a blank
/// line.
pub open spec fn render_control_file(ps: Seq<Seq<EntryModel>>) -> Seq<char>
    decreases ps.len(),
{
    if ps.len() == 0 {
        Seq::empty()
    } else {
        render_paragraph(ps[0]) + seq!['\n'] + render_control_file(ps.drop_first())
    }
}

/// Rendering a paragraph one entry longer appends that entry's text.
proof fn lemma_render_paragraph_push(p: Seq<EntryModel>, e: EntryModel)
    ensures
        render_paragraph(p.push(e)) == render_paragraph(p) + render_entry(e),
    decreases p.len(),
{
    assert(render_paragraph(Seq::<EntryModel>::empty()) == Seq::<char>::empty());
    if p.len() == 0 {
        assert(p.push(e)[0] == e);
        assert(p.push(e).drop_first() =~= Seq::<EntryModel>::empty());
        assert(render_paragraph(p.push(e)) =~= render_paragraph(p) + render_entry(e));
    } else {
        lemma_render_paragraph_push(p.drop_first(), e);
        assert(p.push(e)[0] == p[0]);
        assert(p.push(e).drop_first() =~= p.drop_first().push(e));
        assert(render_paragraph(p.push(e)) =~= render_paragraph(p) + render_entry(e));
    }
}

/// Rendering a file one paragraph longer appends that paragraph's text and
/// a blank line.
proof fn lemma_render_control_file_push(ps: Seq<Seq<EntryModel>>, p: Seq<EntryModel>)
    ensures
        render_control_file(ps.push(p)) == render_control_file(ps) + render_paragraph(p)
            + seq!['\n'],
    decreases ps.len(),
{
    assert(render_control_file(Seq::<Seq<EntryModel>>::empty()) == Seq::<char>::empty());
    if ps.len() == 0 {
        assert(ps.push(p)[0] == p);
        assert(ps.push(p).drop_first() =~= Seq::<Seq<EntryModel>>::empty());
        assert(render_control_file(ps.push(p)) =~= render_control_file(ps) + render_paragraph(p)
            + seq!['\n']);
    } else {
        lemma_render_control_file_push(ps.drop_first(), p);
        assert(ps.push(p)[0] == ps[0]);
        assert(ps.push(p).drop_first() =~= ps.drop_first().push(p));
        assert(render_control_file(ps.push(p)) =~= render_control_file(ps) + render_paragraph(p)
            + seq!['\n']);
    }
}

impl ControlEntry {
    /// Appends this entry's text to `out`.
    fn push_onto(&self, out: &mut String)
        ensures
            final(out)@ == old(out)@ + render_entry(self@),
    {
        out.append(self.key.as_str());
        out.push(':');
        out.push(' ');
        match &self.value {
            ControlValue::Simple(v) => out.append(v.as_str()),
            ControlValue::Folded(v) => out.append(v.as_str()),
            ControlValue::MultiLine(v) => out.append(v.as_str()),
        }
        out.push('\n');
        proof {
            assert(final(out)@ =~= old(out)@ + render_entry(self@));
        }
    }
}

impl ControlParagraph {
    /// Appends this paragraph's text to `out`.
    fn push_onto(&self, out: &mut String)
        ensures
            final(out)@ == old(out)@ + render_paragraph(self@),
    {
        let n = self.entries.len();
        let mut i: usize = 0;
        proof {
            assert(self@.take(0int) =~= Seq::<EntryModel>::empty());
            assert(out@ =~= old(out)@ + render_paragraph(self@.take(0int)));
        }
        while i < n
            invariant
                0 <= i <= n,
                n == self.entries@.len(),
                out@ == old(out)@ + render_paragraph(self@.take(i as int)),
            decreases n - i,
        {
            proof {
                assert(self@[i as int] == self.entries@[i as int]@);
                assert(self@.take(i + 1) =~= self@.take(i as int).push(self@[i as int]));
                lemma_render_paragraph_push(self@.take(i as int), self@[i as int]);
            }
            self.entries[i].push_onto(out);
            proof {
                assert(out@ =~= old(out)@ + render_paragraph(self@.take(i + 1)));
            }
            i += 1;
        }
        proof {
            assert(self@.take(n as int) =~= self@);
        }
    }
}

impl ControlFile {
    /// The text of the whole file, as it is written to disk: each
    /// paragraph's `key: value` lines, a blank line after each paragraph.
    pub fn to_string(&self) -> (r: String)
        ensures
            r@ == render_control_file(self@),
    {
        let mut out = String::new();
        let n = self.paragraphs.len();
        let mut i: usize = 0;
        proof {
            assert(self@.take(0int) =~= Seq::<Seq<EntryModel>>::empty());
            assert(out@ =~= render_control_file(self@.take(0int)));
        }
        while i < n
            invariant
                0 <= i <= n,
                n == self.paragraphs@.len(),
                out@ == render_control_file(self@.take(i as int)),
            decreases n - i,
        {
            proof {
                assert(self@[i as int] == self.paragraphs@[i as int]@);
                assert(self@.take(i + 1) =~= self@.take(i as int).push(self@[i as int]));
                lemma_render_control_file_push(self@.take(i as int), self@[i as int]);
            }
            self.paragraphs[i].push_onto(&mut out);
            out.push('\n');
            proof {
                assert(out@ =~= render_control_file(self@.take(i + 1)));
            }
            i += 1;
        }
        proof {
            assert(self@.take(n as int) =~= self@);
        }
        out
    }
}

} // verus!


