use crate::icon::{after_last_dot, file_glyph, get_file_emoji, lemma_file_glyph_short};
use crate::listing::{
    classified, group_of, infos, lemma_group_step, lemma_listed_same_elements, listed, DirContents,
    EntryKind, FileInfo, InfoView, RawView,
};
use vstd::prelude::*;
use vstd::string::*;

verus! {

/// The widest value of each column, header included.
#[derive(Clone, Copy, Debug)]
pub struct LongestFileInfoFields {
    pub max_name_len: usize,
    pub max_size_len: usize,
    pub max_date_len: usize,
}

/// Cells of one row: modification column, size column, name column.
pub type Row = (Seq<char>, Seq<char>, Seq<char>);

/// A name as shown: directories get a trailing `/`.
pub open spec fn shown_name(name: Seq<char>, k: EntryKind) -> Seq<char> {
    if k == EntryKind::Directory {
        name.push('/')
    } else {
        name
    }
}

/// The largest of `floor` and `f` over `s`.
pub open spec fn longest(s: Seq<InfoView>, f: spec_fn(InfoView) -> nat, floor: nat) -> nat
    decreases s.len(),
{
    if s.len() == 0 {
        floor
    } else {
        let m = longest(s.drop_last(), f, floor);
        if f(s.last()) > m {
            f(s.last())
        } else {
            m
        }
    }
}

pub open spec fn name_width(k: EntryKind) -> spec_fn(InfoView) -> nat {
    |i: InfoView| shown_name(i.name, k).len()
}

pub open spec fn size_width() -> spec_fn(InfoView) -> nat {
    |i: InfoView| i.size.len()
}

pub open spec fn date_width() -> spec_fn(InfoView) -> nat {
    |i: InfoView| i.modified.len()
}

/// Column headers.
pub open spec fn header_row() -> Row {
    ("Modified"@, "Size"@, "Name"@)
}

/// The widths of a listing's columns: the longest value of each column over
/// the header and the entries (files, then directories, then executables).
pub open spec fn widths_of(
    files: Seq<InfoView>,
    dirs: Seq<InfoView>,
    execs: Seq<InfoView>,
) -> (nat, nat, nat) {
    (
        longest(
            execs,
            name_width(EntryKind::Executable),
            longest(
                dirs,
                name_width(EntryKind::Directory),
                longest(files, name_width(EntryKind::File), header_row().2.len()),
            ),
        ),
        longest(execs, size_width(), longest(dirs, size_width(), longest(files, size_width(), header_row().1.len()))),
        longest(execs, date_width(), longest(dirs, date_width(), longest(files, date_width(), header_row().0.len()))),
    )
}

impl DirContents {
    /// Names in a listing are short enough that a trailing `/` still fits a length.
    pub open spec fn names_fit(&self) -> bool {
        forall|i: int| 0 <= i < self.directories@.len() ==> #[trigger] self.directories@[i].name@.len() < usize::MAX
    }

    pub open spec fn widths(&self) -> (nat, nat, nat) {
        widths_of(infos(self.files@), infos(self.directories@), infos(self.executables@))
    }
}

proof fn lemma_longest_step(s: Seq<InfoView>, f: spec_fn(InfoView) -> nat, floor: nat, i: int)
    requires
        0 <= i < s.len(),
    ensures
        longest(s.take(i + 1), f, floor) == if f(s[i]) > longest(s.take(i), f, floor) {
            f(s[i])
        } else {
            longest(s.take(i), f, floor)
        },
{
    assert(s.take(i + 1).drop_last() =~= s.take(i));
}

/// The longest value is at least the floor and each value.
pub proof fn lemma_longest_bounds(s: Seq<InfoView>, f: spec_fn(InfoView) -> nat, floor: nat)
    ensures
        longest(s, f, floor) >= floor,
        forall|i: int| 0 <= i < s.len() ==> longest(s, f, floor) >= f(#[trigger] s[i]),
    decreases s.len(),
{
    if s.len() > 0 {
        lemma_longest_bounds(s.drop_last(), f, floor);
        assert forall|i: int| 0 <= i < s.len() implies longest(s, f, floor) >= f(#[trigger] s[i]) by {
            if i < s.len() - 1 {
                assert(s[i] == s.drop_last()[i]);
            }
        }
    }
}

fn widen(v: &Vec<FileInfo>, k: EntryKind, w: &mut LongestFileInfoFields)
    requires
        k == EntryKind::Directory ==> forall|i: int|
            0 <= i < v@.len() ==> #[trigger] v@[i].name@.len() < usize::MAX,
    ensures
        final(w).max_name_len == longest(infos(v@), name_width(k), old(w).max_name_len as nat),
        final(w).max_size_len == longest(infos(v@), size_width(), old(w).max_size_len as nat),
        final(w).max_date_len == longest(infos(v@), date_width(), old(w).max_date_len as nat),
{
    let ghost s = infos(v@);
    let ghost w0 = *w;
    assert(s.take(0) =~= Seq::<InfoView>::empty());
    let mut i: usize = 0;
    while i < v.len()
        invariant
            i <= v@.len(),
            s == infos(v@),
            k == EntryKind::Directory ==> forall|j: int|
                0 <= j < v@.len() ==> #[trigger] v@[j].name@.len() < usize::MAX,
            w.max_name_len == longest(s.take(i as int), name_width(k), w0.max_name_len as nat),
            w.max_size_len == longest(s.take(i as int), size_width(), w0.max_size_len as nat),
            w.max_date_len == longest(s.take(i as int), date_width(), w0.max_date_len as nat),
        decreases v@.len() - i,
    {
        let f = &v[i];
        proof {
            lemma_longest_step(s, name_width(k), w0.max_name_len as nat, i as int);
            lemma_longest_step(s, size_width(), w0.max_size_len as nat, i as int);
            lemma_longest_step(s, date_width(), w0.max_date_len as nat, i as int);
            assert(s[i as int] == f@);
        }
        let mut name_len = f.name.as_str().unicode_len();
        if k == EntryKind::Directory {
            name_len = name_len + 1;
        }
        if name_len > w.max_name_len {
            w.max_name_len = name_len;
        }
        let size_len = f.readable_size.as_str().unicode_len();
        if size_len > w.max_size_len {
            w.max_size_len = size_len;
        }
        let date_len = f.modified_at.as_str().unicode_len();
        if date_len > w.max_date_len {
            w.max_date_len = date_len;
        }
        i = i + 1;
    }
    assert(s.take(i as int) =~= s);
}

impl DirContents {
    /// The widest value of each column, over the header and every entry.
    pub fn get_longest_field_entries(&self) -> (r: LongestFileInfoFields)
        requires
            self.names_fit(),
        ensures
            (r.max_name_len as nat, r.max_size_len as nat, r.max_date_len as nat) == self.widths(),
    {
        proof {
            reveal_strlit("Modified");
            reveal_strlit("Size");
            reveal_strlit("Name");
        }
        let mut w = LongestFileInfoFields { max_name_len: 4, max_size_len: 4, max_date_len: 8 };
        widen(&self.files, EntryKind::File, &mut w);
        widen(&self.directories, EntryKind::Directory, &mut w);
        widen(&self.executables, EntryKind::Executable, &mut w);
        w
    }
}

/// The glyph in front of an entry's modification time.
pub open spec fn kind_glyph(k: EntryKind, name: Seq<char>) -> Seq<char> {
    match k {
        EntryKind::Directory => "📁"@,
        EntryKind::Executable => "⚡"@,
        EntryKind::File => file_glyph(name),
    }
}

/// The row of one entry: glyph and time, size, shown name.
pub open spec fn entry_row(i: InfoView, k: EntryKind) -> Row {
    (kind_glyph(k, i.name) + seq![' '] + i.modified, i.size, shown_name(i.name, k))
}

pub open spec fn dashes(n: nat) -> Seq<char> {
    Seq::new(n, |j: int| '-')
}

/// The row under the header; the first column has three more dashes, for
/// the glyph in front of each time.
pub open spec fn separator_row(w: (nat, nat, nat)) -> Row {
    (dashes(3 + w.2), dashes(w.1), dashes(w.0))
}

pub open spec fn group_rows(s: Seq<InfoView>, k: EntryKind) -> Seq<Row> {
    s.map_values(|i: InfoView| entry_row(i, k))
}

/// All rows of a table: header, separator, then directories, files and
/// executables.
pub open spec fn table_rows(files: Seq<InfoView>, dirs: Seq<InfoView>, execs: Seq<InfoView>) -> Seq<Row> {
    seq![header_row(), separator_row(widths_of(files, dirs, execs))] + group_rows(
        dirs,
        EntryKind::Directory,
    ) + group_rows(files, EntryKind::File) + group_rows(execs, EntryKind::Executable)
}

/// One line of text: cells separated by tabs, ended by a newline.
pub open spec fn row_line(r: Row) -> Seq<char> {
    r.0 + seq!['\t'] + r.1 + seq!['\t'] + r.2 + seq!['\n']
}

pub open spec fn lines_text(rows: Seq<Row>) -> Seq<char>
    decreases rows.len(),
{
    if rows.len() == 0 {
        Seq::empty()
    } else {
        lines_text(rows.drop_last()) + row_line(rows.last())
    }
}

impl DirContents {
    pub open spec fn rows(&self) -> Seq<Row> {
        table_rows(infos(self.files@), infos(self.directories@), infos(self.executables@))
    }
}

proof fn lemma_lines_concat(a: Seq<Row>, b: Seq<Row>)
    ensures
        lines_text(a + b) == lines_text(a) + lines_text(b),
    decreases b.len(),
{
    if b.len() == 0 {
        assert(a + b =~= a);
        assert(lines_text(a) + lines_text(b) =~= lines_text(a));
    } else {
        lemma_lines_concat(a, b.drop_last());
        assert((a + b).drop_last() =~= a + b.drop_last());
        assert(lines_text(a + b) =~= lines_text(a) + lines_text(b));
    }
}

fn push_line(out: &mut String, a: &str, b: &str, c: &str)
    ensures
        final(out)@ == old(out)@ + row_line((a@, b@, c@)),
{
    out.append(a);
    out.append("\t");
    out.append(b);
    out.append("\t");
    out.append(c);
    out.append("\n");
    proof {
        reveal_strlit("\t");
        reveal_strlit("\n");
    }
    assert(out@ =~= old(out)@ + row_line((a@, b@, c@)));
}

fn push_dashes(out: &mut String, n: usize)
    ensures
        final(out)@ == old(out)@ + dashes(n as nat),
{
    proof {
        reveal_strlit("-");
    }
    let mut i: usize = 0;
    while i < n
        invariant
            i <= n,
            out@ == old(out)@ + dashes(i as nat),
        decreases n - i,
    {
        out.append("-");
        proof {
            reveal_strlit("-");
            assert("-"@.len() == 1);
            assert(dashes((i + 1) as nat) =~= dashes(i as nat) + "-"@);
        }
        i = i + 1;
    }
}

fn push_group(out: &mut String, v: &Vec<FileInfo>, k: EntryKind)
    requires
        k == EntryKind::Directory ==> forall|i: int|
            0 <= i < v@.len() ==> #[trigger] v@[i].name@.len() < usize::MAX,
    ensures
        final(out)@ == old(out)@ + lines_text(group_rows(infos(v@), k)),
{
    let ghost rows = group_rows(infos(v@), k);
    assert(rows.take(0) =~= Seq::<Row>::empty());
    let mut i: usize = 0;
    while i < v.len()
        invariant
            i <= v@.len(),
            rows == group_rows(infos(v@), k),
            out@ == old(out)@ + lines_text(rows.take(i as int)),
        decreases v@.len() - i,
    {
        let f = &v[i];
        let glyph = match k {
            EntryKind::Directory => "📁",
            EntryKind::Executable => "⚡",
            EntryKind::File => get_file_emoji(f.name.as_str()),
        };
        let mut first = String::from_str(glyph);
        first.append(" ");
        first.append(f.modified_at.as_str());
        let mut name = f.name.clone();
        if k == EntryKind::Directory {
            name.append("/");
        }
        proof {
            reveal_strlit(" ");
            reveal_strlit("/");
            assert(rows.take(i + 1).drop_last() =~= rows.take(i as int));
            assert(rows[i as int] == entry_row(f@, k));
            assert(first@ =~= entry_row(f@, k).0);
            assert(name@ =~= entry_row(f@, k).2);
        }
        push_line(out, first.as_str(), f.readable_size.as_str(), name.as_str());
        assert(out@ =~= old(out)@ + lines_text(rows.take(i + 1)));
        i = i + 1;
    }
    assert(rows.take(i as int) =~= rows);
}

/// What tabwriter makes of a text: each tab-separated column padded to a
/// common width plus `padding` spaces.
pub uninterp spec fn tab_aligned(text: Seq<char>, padding: nat) -> Seq<u8>;

/// Relies on tabwriter's `TabWriter` over a `Vec<u8>`, with `padding`: the
/// aligned bytes depend on the text and the padding alone, and since writing
/// to a `Vec<u8>` cannot fail, neither `write` nor `into_inner` fails.
#[verifier::external_body]
fn align_columns(text: &str, padding: usize) -> (r: Option<Vec<u8>>)
    ensures
        r is Some,
        r matches Some(b) ==> b@ == tab_aligned(text@, padding as nat),
{
    let mut tw = tabwriter::TabWriter::new(Vec::new()).padding(padding);
    if std::io::Write::write_all(&mut tw, text.as_bytes()).is_err() {
        return None;
    }
    match tw.into_inner() {
        Ok(b) => Some(b),
        Err(_) => None,
    }
}

/// Spaces between columns of the aligned table.
pub const COLUMN_PADDING: usize = 4;

impl DirContents {
    /// The table before alignment: one line per row, cells separated by tabs.
    pub fn table_text(&self) -> (r: String)
        requires
            self.names_fit(),
        ensures
            r@ == lines_text(self.rows()),
    {
        let w = self.get_longest_field_entries();
        let mut out = String::new();
        push_line(&mut out, "Modified", "Size", "Name");
        let mut date_dashes = String::from_str("---");
        push_dashes(&mut date_dashes, w.max_date_len);
        let mut size_dashes = String::new();
        push_dashes(&mut size_dashes, w.max_size_len);
        let mut name_dashes = String::new();
        push_dashes(&mut name_dashes, w.max_name_len);
        proof {
            reveal_strlit("---");
            assert(date_dashes@ =~= dashes((3 + w.max_date_len) as nat));
            assert(size_dashes@ =~= dashes(w.max_size_len as nat));
            assert(name_dashes@ =~= dashes(w.max_name_len as nat));
        }
        push_line(&mut out, date_dashes.as_str(), size_dashes.as_str(), name_dashes.as_str());
        let ghost head = out@;
        push_group(&mut out, &self.directories, EntryKind::Directory);
        push_group(&mut out, &self.files, EntryKind::File);
        push_group(&mut out, &self.executables, EntryKind::Executable);
        proof {
            let h = seq![header_row(), separator_row(self.widths())];
            let d = group_rows(infos(self.directories@), EntryKind::Directory);
            let f = group_rows(infos(self.files@), EntryKind::File);
            let x = group_rows(infos(self.executables@), EntryKind::Executable);
            reveal_with_fuel(lines_text, 3);
            assert(h.drop_last().drop_last() =~= Seq::<Row>::empty());
            assert(head =~= lines_text(h));
            lemma_lines_concat(h, d);
            lemma_lines_concat(h + d, f);
            lemma_lines_concat(h + d + f, x);
            assert(out@ =~= lines_text(h + d + f + x));
        }
        out
    }

    /// The aligned table, as bytes ready to be written out.
    pub fn render(&self) -> (r: Option<Vec<u8>>)
        requires
            self.names_fit(),
        ensures
            r is Some,
            r matches Some(b) ==> b@ == tab_aligned(lines_text(self.rows()), COLUMN_PADDING as nat),
    {
        let text = self.table_text();
        align_columns(text.as_str(), COLUMN_PADDING)
    }
}

/// Whether each cell of the second row is at least as long as every cell
/// below or above it.
pub open spec fn separator_covers(rows: Seq<Row>) -> bool {
    forall|i: int|
        0 <= i < rows.len() ==> {
            &&& (#[trigger] rows[i]).0.len() <= rows[1].0.len()
            &&& rows[i].1.len() <= rows[1].1.len()
            &&& rows[i].2.len() <= rows[1].2.len()
        }
}

/// Each dash run of the separator row is at least as long as every value of
/// its column, the header included.
pub proof fn lemma_separator_covers_columns(files: Seq<InfoView>, dirs: Seq<InfoView>, execs: Seq<InfoView>)
    ensures
        separator_covers(table_rows(files, dirs, execs)),
{
    reveal_strlit("Modified");
    reveal_strlit("Size");
    reveal_strlit("Name");
    reveal_strlit("📁");
    reveal_strlit("⚡");
    let rows = table_rows(files, dirs, execs);
    let w = widths_of(files, dirs, execs);
    let (nf, nd, nx) = (name_width(EntryKind::File), name_width(EntryKind::Directory), name_width(EntryKind::Executable));
    let n0 = longest(files, nf, 4);
    let n1 = longest(dirs, nd, n0);
    lemma_longest_bounds(files, nf, 4);
    lemma_longest_bounds(dirs, nd, n0);
    lemma_longest_bounds(execs, nx, n1);
    let s0 = longest(files, size_width(), 4);
    let s1 = longest(dirs, size_width(), s0);
    lemma_longest_bounds(files, size_width(), 4);
    lemma_longest_bounds(dirs, size_width(), s0);
    lemma_longest_bounds(execs, size_width(), s1);
    let d0 = longest(files, date_width(), 8);
    let d1 = longest(dirs, date_width(), d0);
    lemma_longest_bounds(files, date_width(), 8);
    lemma_longest_bounds(dirs, date_width(), d0);
    lemma_longest_bounds(execs, date_width(), d1);
    let nd_ = dirs.len() as int;
    let nf_ = files.len() as int;
    assert forall|i: int| 0 <= i < rows.len() implies {
        &&& (#[trigger] rows[i]).0.len() <= rows[1].0.len()
        &&& rows[i].1.len() <= rows[1].1.len()
        &&& rows[i].2.len() <= rows[1].2.len()
    } by {
        if 2 <= i < 2 + nd_ {
            let e = dirs[i - 2];
            assert(rows[i] == entry_row(e, EntryKind::Directory));
        } else if 2 + nd_ <= i < 2 + nd_ + nf_ {
            let e = files[i - 2 - nd_];
            assert(rows[i] == entry_row(e, EntryKind::File));
            lemma_file_glyph_short(e.name);
        } else if 2 + nd_ + nf_ <= i {
            let e = execs[i - 2 - nd_ - nf_];
            assert(rows[i] == entry_row(e, EntryKind::Executable));
        }
    }
}

/// A regular file with an execute bit is listed as an executable, with the
/// lightning glyph, whatever its extension.
pub proof fn lemma_executable_bit_wins_over_extension(e: RawView)
    requires
        e.meta matches Some(m) && m.is_file && !m.is_dir && m.mode & 0o111u32 != 0,
    ensures
        classified(e) matches Some(c) ==> c.0 == EntryKind::Executable && entry_row(c.1, c.0).0 == "⚡"@
            + seq![' '] + c.1.modified,
{
}

proof fn lemma_single_group(es: Seq<RawView>, k: EntryKind, j: int)
    requires
        es.len() == 3,
        0 <= j < 3,
        classified(es[j]) matches Some(c) && c.0 == k,
        forall|i: int| 0 <= i < 3 && i != j ==> (#[trigger] classified(es[i]) matches Some(c) && c.0 != k),
    ensures
        listed(es, k) == seq![(classified(es[j])->0).1],
{
    lemma_group_step(es, 0, k);
    lemma_group_step(es, 1, k);
    lemma_group_step(es, 2, k);
    assert(es.take(0) =~= Seq::<RawView>::empty());
    assert(es.take(3) =~= es);
    let v = (classified(es[j])->0).1;
    assert(group_of(es, k) =~= seq![v]);
    lemma_listed_same_elements(es, k, v);
    assert(seq![v].contains(v)) by {
        assert(seq![v][0] == v);
    }
    let l = listed(es, k);
    assert(l.len() == 1);
    assert(l.contains(v));
    assert(l =~= seq![v]);
}

/// A directory holding a subdirectory `sub`, an executable `run.sh` and a
/// plain `notes.txt` lists exactly these three: `sub/` with the folder glyph,
/// then `notes.txt` with the glyph of its extension `txt`, then `run.sh` with
/// the lightning glyph.
pub proof fn lemma_three_entry_listing(es: Seq<RawView>)
    requires
        es.len() == 3,
        es[0].name == "sub"@,
        es[0].meta matches Some(m) && m.is_dir,
        es[1].name == "run.sh"@,
        es[1].meta matches Some(m) && m.is_file && !m.is_dir && m.mode & 0o111u32 != 0,
        es[2].name == "notes.txt"@,
        es[2].meta matches Some(m) && m.is_file && !m.is_dir && m.mode & 0o111u32 == 0,
        forall|i: int| 0 <= i < 3 ==> #[trigger] classified(es[i]) is Some,
    ensures
        listed(es, EntryKind::Directory).len() == 1,
        listed(es, EntryKind::Directory)[0].name == "sub"@,
        listed(es, EntryKind::File).len() == 1,
        listed(es, EntryKind::File)[0].name == "notes.txt"@,
        listed(es, EntryKind::Executable).len() == 1,
        listed(es, EntryKind::Executable)[0].name == "run.sh"@,
        table_rows(
            listed(es, EntryKind::File),
            listed(es, EntryKind::Directory),
            listed(es, EntryKind::Executable),
        ).len() == 5,
        table_rows(
            listed(es, EntryKind::File),
            listed(es, EntryKind::Directory),
            listed(es, EntryKind::Executable),
        )[2] == ("📁"@ + seq![' '] + listed(es, EntryKind::Directory)[0].modified, listed(
            es,
            EntryKind::Directory,
        )[0].size, "sub/"@),
        table_rows(
            listed(es, EntryKind::File),
            listed(es, EntryKind::Directory),
            listed(es, EntryKind::Executable),
        )[3] == (file_glyph("notes.txt"@) + seq![' '] + listed(es, EntryKind::File)[0].modified, listed(
            es,
            EntryKind::File,
        )[0].size, "notes.txt"@),
        table_rows(
            listed(es, EntryKind::File),
            listed(es, EntryKind::Directory),
            listed(es, EntryKind::Executable),
        )[4] == ("⚡"@ + seq![' '] + listed(es, EntryKind::Executable)[0].modified, listed(
            es,
            EntryKind::Executable,
        )[0].size, "run.sh"@),
        after_last_dot("notes.txt"@) == Some("txt"@),
{
    assert(classified(es[0]) is Some);
    assert(classified(es[1]) is Some);
    assert(classified(es[2]) is Some);
    lemma_single_group(es, EntryKind::Directory, 0);
    lemma_single_group(es, EntryKind::Executable, 1);
    lemma_single_group(es, EntryKind::File, 2);
    reveal_strlit("sub");
    reveal_strlit("sub/");
    reveal_strlit("notes.txt");
    reveal_strlit("txt");
    let d = listed(es, EntryKind::Directory);
    let f = listed(es, EntryKind::File);
    let x = listed(es, EntryKind::Executable);
    let rows = table_rows(f, d, x);
    assert(d[0].name.push('/') =~= "sub/"@);
    assert(rows[2] == entry_row(d[0], EntryKind::Directory));
    assert(rows[3] == entry_row(f[0], EntryKind::File));
    assert(rows[4] == entry_row(x[0], EntryKind::Executable));
    reveal_with_fuel(after_last_dot, 5);
    let n = "notes.txt"@;
    assert(n.drop_last() =~= seq!['n', 'o', 't', 'e', 's', '.', 't', 'x']);
    assert(n.drop_last().drop_last() =~= seq!['n', 'o', 't', 'e', 's', '.', 't']);
    assert(n.drop_last().drop_last().drop_last() =~= seq!['n', 'o', 't', 'e', 's', '.']);
    assert(after_last_dot(n) == Some(seq!['t', 'x', 't']));
    assert("txt"@ =~= seq!['t', 'x', 't']);
}

} // verus!
