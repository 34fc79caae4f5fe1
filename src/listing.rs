use crate::icon::lower_of;
use crate::order::{
    compare_text, lemma_text_lt_asymmetric, lemma_text_lt_connected, lemma_text_lt_irreflexive,
    lemma_text_lt_transitive, text_lt,
};
use crate::size::{human_readable_size, size_text};
use vstd::multiset::Multiset;
use vstd::prelude::*;
use vstd::relations::*;
use vstd::string::*;

verus! {

/// How an entry is shown.
#[derive(Clone, Copy, Debug, PartialEq, Eq, Structural)]
pub enum EntryKind {
    File,
    Directory,
    Executable,
}

/// What the file system reports of one entry.
#[derive(Clone, Copy, Debug)]
pub struct EntryMeta {
    pub is_dir: bool,
    pub is_file: bool,
    /// Permission bits, as in `st_mode`.
    pub mode: u32,
    /// Length in bytes.
    pub len: u64,
    /// Modification time in whole seconds since the Unix epoch, if readable.
    pub modified_secs: Option<i64>,
}

/// One entry as enumerated, before classification; `meta` is `None` where
/// its metadata could not be read.
#[derive(Clone, Debug)]
pub struct RawEntry {
    pub name: String,
    pub meta: Option<EntryMeta>,
}

/// A raw entry as a mathematical value.
pub struct RawView {
    pub name: Seq<char>,
    pub meta: Option<EntryMeta>,
}

impl View for RawEntry {
    type V = RawView;

    open spec fn view(&self) -> RawView {
        RawView { name: self.name@, meta: self.meta }
    }
}

/// A listed entry with its size and modification time already formatted.
#[derive(Clone, Debug)]
pub struct FileInfo {
    pub name: String,
    pub readable_size: String,
    pub modified_at: String,
}

/// A listed entry as a mathematical value.
pub struct InfoView {
    pub name: Seq<char>,
    pub size: Seq<char>,
    pub modified: Seq<char>,
}

impl View for FileInfo {
    type V = InfoView;

    open spec fn view(&self) -> InfoView {
        InfoView { name: self.name@, size: self.readable_size@, modified: self.modified_at@ }
    }
}

/// The values of a sequence of listed entries.
pub open spec fn infos(s: Seq<FileInfo>) -> Seq<InfoView> {
    s.map_values(|f: FileInfo| f@)
}

/// What chrono makes of a count of seconds since the Unix epoch, written as
/// `%Y-%m-%d %H:%M:%S` in UTC, or `None` where the count is out of its range.
pub uninterp spec fn utc_stamp(secs: int) -> Option<Seq<char>>;

/// Relies on chrono's `DateTime::from_timestamp` (which gives `None` out of
/// range) and `DateTime::format`: the text depends on the seconds alone.
#[verifier::external_body]
fn format_utc_seconds(secs: i64) -> (r: Option<String>)
    ensures
        r matches Some(t) ==> utc_stamp(secs as int) == Some(t@),
        r is None ==> utc_stamp(secs as int) is None,
{
    match chrono::DateTime::from_timestamp(secs, 0) {
        Some(d) => Some(d.format("%Y-%m-%d %H:%M:%S").to_string()),
        None => None,
    }
}

pub open spec fn text_opt(o: Option<String>) -> Option<Seq<char>> {
    match o {
        Some(t) => Some(t@),
        None => None,
    }
}

/// The entries that name the directory itself and its parent.
pub open spec fn is_dot_entry(name: Seq<char>) -> bool {
    name == "."@ || name == ".."@
}

/// A directory is a Directory whatever its bits; a regular file with any
/// execute bit is Executable; everything else is a File.
pub open spec fn kind_of(m: EntryMeta) -> EntryKind {
    if m.is_dir {
        EntryKind::Directory
    } else if m.is_file && m.mode & 0o111u32 != 0 {
        EntryKind::Executable
    } else {
        EntryKind::File
    }
}

/// The classification of an entry, given the formatted modification time
/// `stamp`; `None` where the entry is dropped.
pub open spec fn classified_with(e: RawView, stamp: Option<Seq<char>>) -> Option<(EntryKind, InfoView)> {
    if is_dot_entry(e.name) {
        None
    } else {
        match e.meta {
            None => None,
            Some(m) => if m.modified_secs is None {
                None
            } else {
                match stamp {
                    None => None,
                    Some(t) => Some(
                        (kind_of(m), InfoView { name: e.name, size: size_text(m.len as nat), modified: t }),
                    ),
                }
            },
        }
    }
}

/// The formatted modification time of an entry, where it has one.
pub open spec fn stamp_of(e: RawView) -> Option<Seq<char>> {
    match e.meta {
        Some(m) => match m.modified_secs {
            Some(s) => utc_stamp(s as int),
            None => None,
        },
        None => None,
    }
}

/// The classification of an entry; `None` where it is dropped.
pub open spec fn classified(e: RawView) -> Option<(EntryKind, InfoView)> {
    classified_with(e, stamp_of(e))
}

fn is_dot_name(name: &str) -> (r: bool)
    ensures
        r == is_dot_entry(name@),
{
    crate::icon::same_text(name, ".") || crate::icon::same_text(name, "..")
}

/// Classifies an entry whose modification time was formatted as `stamp`.
pub fn classify_with_stamp(entry: &RawEntry, stamp: Option<String>) -> (r: Option<(EntryKind, FileInfo)>)
    ensures
        r matches Some(c) ==> classified_with(entry@, text_opt(stamp)) == Some((c.0, c.1@)),
        r is None ==> classified_with(entry@, text_opt(stamp)) is None,
{
    if is_dot_name(entry.name.as_str()) {
        return None;
    }
    match entry.meta {
        None => None,
        Some(m) => {
            if m.modified_secs.is_none() {
                return None;
            }
            match stamp {
                None => None,
                Some(t) => {
                    let kind = if m.is_dir {
                        EntryKind::Directory
                    } else if m.is_file && m.mode & 0o111u32 != 0 {
                        EntryKind::Executable
                    } else {
                        EntryKind::File
                    };
                    let info = FileInfo {
                        name: entry.name.clone(),
                        readable_size: human_readable_size(m.len),
                        modified_at: t,
                    };
                    Some((kind, info))
                },
            }
        },
    }
}

/// Classifies an entry, formatting its modification time in UTC.
pub fn classify_entry(entry: &RawEntry) -> (r: Option<(EntryKind, FileInfo)>)
    ensures
        r matches Some(c) ==> classified(entry@) == Some((c.0, c.1@)),
        r is None ==> classified(entry@) is None,
{
    let stamp = match entry.meta {
        Some(m) => match m.modified_secs {
            Some(s) => format_utc_seconds(s),
            None => None,
        },
        None => None,
    };
    assert(text_opt(stamp) == stamp_of(entry@));
    classify_with_stamp(entry, stamp)
}

/// Order of listed entries: by name in lower case, then by the name itself,
/// then by size and time text, so that no two different entries tie.
pub open spec fn info_lt(a: InfoView, b: InfoView) -> bool {
    if lower_of(a.name) != lower_of(b.name) {
        text_lt(lower_of(a.name), lower_of(b.name))
    } else if a.name != b.name {
        text_lt(a.name, b.name)
    } else if a.size != b.size {
        text_lt(a.size, b.size)
    } else {
        text_lt(a.modified, b.modified)
    }
}

pub open spec fn info_le(a: InfoView, b: InfoView) -> bool {
    a == b || info_lt(a, b)
}

pub open spec fn info_order() -> spec_fn(InfoView, InfoView) -> bool {
    |a: InfoView, b: InfoView| info_le(a, b)
}

proof fn lemma_info_lt_asymmetric(a: InfoView, b: InfoView)
    ensures
        !(info_lt(a, b) && info_lt(b, a)),
        !info_lt(a, a),
{
    lemma_text_lt_asymmetric(lower_of(a.name), lower_of(b.name));
    lemma_text_lt_asymmetric(a.name, b.name);
    lemma_text_lt_asymmetric(a.size, b.size);
    lemma_text_lt_asymmetric(a.modified, b.modified);
    lemma_text_lt_irreflexive(a.modified);
}

proof fn lemma_info_lt_transitive(a: InfoView, b: InfoView, c: InfoView)
    requires
        info_lt(a, b),
        info_lt(b, c),
    ensures
        info_lt(a, c),
{
    let (la, lb, lc) = (lower_of(a.name), lower_of(b.name), lower_of(c.name));
    if la != lb && lb != lc {
        lemma_text_lt_transitive(la, lb, lc);
        lemma_text_lt_irreflexive(la);
    } else if la == lb && lb == lc {
        if a.name != b.name && b.name != c.name {
            lemma_text_lt_transitive(a.name, b.name, c.name);
            lemma_text_lt_irreflexive(a.name);
        } else if a.name == b.name && b.name == c.name {
            if a.size != b.size && b.size != c.size {
                lemma_text_lt_transitive(a.size, b.size, c.size);
                lemma_text_lt_irreflexive(a.size);
            } else if a.size == b.size && b.size == c.size {
                lemma_text_lt_transitive(a.modified, b.modified, c.modified);
            }
        }
    }
}

proof fn lemma_info_lt_connected(a: InfoView, b: InfoView)
    requires
        a != b,
    ensures
        info_lt(a, b) || info_lt(b, a),
{
    if lower_of(a.name) != lower_of(b.name) {
        lemma_text_lt_connected(lower_of(a.name), lower_of(b.name));
    } else if a.name != b.name {
        lemma_text_lt_connected(a.name, b.name);
    } else if a.size != b.size {
        lemma_text_lt_connected(a.size, b.size);
    } else {
        lemma_text_lt_connected(a.modified, b.modified);
    }
}

/// The order of listed entries is a total order.
pub proof fn lemma_info_order_total()
    ensures
        total_ordering(info_order()),
{
    assert forall|a: InfoView, b: InfoView| #[trigger] info_order()(a, b) && info_order()(b, a) implies a == b by {
        lemma_info_lt_asymmetric(a, b);
    }
    assert forall|a: InfoView, b: InfoView, c: InfoView| #[trigger] info_order()(a, b) && #[trigger] info_order()(b, c) implies info_order()(a, c) by {
        if a != b && b != c {
            lemma_info_lt_transitive(a, b, c);
        }
    }
    assert forall|a: InfoView, b: InfoView| #[trigger] info_order()(a, b) || info_order()(b, a) by {
        if a != b {
            lemma_info_lt_connected(a, b);
        }
    }
}

/// Whether `a` comes before `b` in a listing, or is the same entry.
pub fn info_le_exec(a: &FileInfo, b: &FileInfo) -> (r: bool)
    ensures
        r == info_le(a@, b@),
{
    let la = crate::icon::lowercase(a.name.as_str());
    let lb = crate::icon::lowercase(b.name.as_str());
    let c = compare_text(la.as_str(), lb.as_str());
    if c != 0 {
        return c < 0;
    }
    let c = compare_text(a.name.as_str(), b.name.as_str());
    if c != 0 {
        return c < 0;
    }
    let c = compare_text(a.readable_size.as_str(), b.readable_size.as_str());
    if c != 0 {
        return c < 0;
    }
    let c = compare_text(a.modified_at.as_str(), b.modified_at.as_str());
    proof {
        lemma_text_lt_irreflexive(a.modified_at@);
    }
    c <= 0
}

proof fn lemma_insert_multiset<A>(s: Seq<A>, p: int, x: A)
    requires
        0 <= p <= s.len(),
    ensures
        s.insert(p, x).to_multiset() == s.to_multiset().insert(x),
{
    broadcast use vstd::seq_lib::group_to_multiset_ensures;

    let t = s.insert(p, x);
    assert(t.remove(p) =~= s);
    assert(t[p] == x);
    assert(t.to_multiset().remove(x) == s.to_multiset());
    assert(t.to_multiset().count(x) > 0) by {
        assert(t.contains(x));
    }
    assert(t.to_multiset() =~= s.to_multiset().insert(x));
}

/// Inserts `x` into a sorted listing group, keeping it sorted.
pub fn insert_sorted(v: &mut Vec<FileInfo>, x: FileInfo)
    requires
        sorted_by(infos(old(v)@), info_order()),
    ensures
        sorted_by(infos(final(v)@), info_order()),
        infos(final(v)@).to_multiset() == infos(old(v)@).to_multiset().insert(x@),
{
    proof {
        lemma_info_order_total();
    }
    let mut p: usize = 0;
    while p < v.len() && info_le_exec(&v[p], &x)
        invariant
            p <= v@.len(),
            v@ == old(v)@,
            forall|j: int| 0 <= j < p ==> info_le(#[trigger] v@[j]@, x@),
        decreases v@.len() - p,
    {
        p = p + 1;
    }
    let ghost before = infos(v@);
    let ghost xv = x@;
    assert(p < v@.len() ==> !info_le(v@[p as int]@, x@));
    v.insert(p, x);
    proof {
        let after = infos(v@);
        assert(after =~= before.insert(p as int, xv));
        lemma_insert_multiset(before, p as int, xv);
        assert forall|i: int, j: int| 0 <= i < j < after.len() implies #[trigger] info_order()(after[i], after[j]) by {
            if j < p {
                assert(info_order()(before[i], before[j]));
            } else if j == p {
                assert(info_le(before[i], xv));
            } else if i == p {
                assert(info_order()(before[p as int], before[j - 1]));
                lemma_info_lt_connected(before[p as int], xv);
                if before[p as int] != before[j - 1] {
                    lemma_info_lt_transitive(xv, before[p as int], before[j - 1]);
                }
            } else if i < p {
                assert(info_order()(before[i], before[j - 1]));
            } else {
                assert(info_order()(before[i - 1], before[j - 1]));
            }
        }
    }
}

/// The entries of one directory, by kind, each group in listing order.
pub struct DirContents {
    pub files: Vec<FileInfo>,
    pub directories: Vec<FileInfo>,
    pub executables: Vec<FileInfo>,
}

/// The values of a sequence of raw entries.
pub open spec fn raws(s: Seq<RawEntry>) -> Seq<RawView> {
    s.map_values(|e: RawEntry| e@)
}

/// The entries of kind `k` among `es`, classified, in enumeration order.
pub open spec fn group_of(es: Seq<RawView>, k: EntryKind) -> Seq<InfoView>
    decreases es.len(),
{
    if es.len() == 0 {
        Seq::empty()
    } else {
        let rest = group_of(es.drop_last(), k);
        match classified(es.last()) {
            Some(c) => if c.0 == k {
                rest.push(c.1)
            } else {
                rest
            },
            None => rest,
        }
    }
}

/// The entries of kind `k` among `es`, in listing order.
pub open spec fn listed(es: Seq<RawView>, k: EntryKind) -> Seq<InfoView> {
    group_of(es, k).sort_by(info_order())
}

proof fn lemma_sorted_is_sort(x: Seq<InfoView>, y: Seq<InfoView>)
    requires
        sorted_by(x, info_order()),
        x.to_multiset() == y.to_multiset(),
    ensures
        x == y.sort_by(info_order()),
{
    lemma_info_order_total();
    y.lemma_sort_by_ensures(info_order());
    vstd::seq_lib::lemma_sorted_unique(x, y.sort_by(info_order()), info_order());
}

pub(crate) proof fn lemma_group_step(es: Seq<RawView>, i: int, k: EntryKind)
    requires
        0 <= i < es.len(),
    ensures
        group_of(es.take(i + 1), k) == ({
            let rest = group_of(es.take(i), k);
            match classified(es[i]) {
                Some(c) => if c.0 == k {
                    rest.push(c.1)
                } else {
                    rest
                },
                None => rest,
            }
        }),
{
    assert(es.take(i + 1).drop_last() =~= es.take(i));
}

proof fn lemma_push_multiset<A>(s: Seq<A>, x: A)
    ensures
        s.push(x).to_multiset() == s.to_multiset().insert(x),
{
    broadcast use vstd::seq_lib::group_to_multiset_ensures;

}

/// Classifies the entries of a directory, drops those that are not listed,
/// and sorts each kind into listing order.
pub fn extract_files_from_entries(entries: &Vec<RawEntry>) -> (r: DirContents)
    ensures
        infos(r.files@) == listed(raws(entries@), EntryKind::File),
        infos(r.directories@) == listed(raws(entries@), EntryKind::Directory),
        infos(r.executables@) == listed(raws(entries@), EntryKind::Executable),
{
    let mut files: Vec<FileInfo> = Vec::new();
    let mut directories: Vec<FileInfo> = Vec::new();
    let mut executables: Vec<FileInfo> = Vec::new();
    let ghost es = raws(entries@);
    proof {
        assert(infos(files@) =~= Seq::<InfoView>::empty());
        assert(infos(directories@) =~= Seq::<InfoView>::empty());
        assert(infos(executables@) =~= Seq::<InfoView>::empty());
        assert(es.take(0) =~= Seq::<RawView>::empty());
    }
    let mut i: usize = 0;
    while i < entries.len()
        invariant
            i <= entries@.len(),
            es == raws(entries@),
            sorted_by(infos(files@), info_order()),
            sorted_by(infos(directories@), info_order()),
            sorted_by(infos(executables@), info_order()),
            infos(files@).to_multiset() == group_of(es.take(i as int), EntryKind::File).to_multiset(),
            infos(directories@).to_multiset() == group_of(es.take(i as int), EntryKind::Directory).to_multiset(),
            infos(executables@).to_multiset() == group_of(es.take(i as int), EntryKind::Executable).to_multiset(),
        decreases entries@.len() - i,
    {
        let c = classify_entry(&entries[i]);
        proof {
            assert(es[i as int] == entries@[i as int]@);
            lemma_group_step(es, i as int, EntryKind::File);
            lemma_group_step(es, i as int, EntryKind::Directory);
            lemma_group_step(es, i as int, EntryKind::Executable);
        }
        match c {
            Some((kind, info)) => {
                proof {
                    lemma_push_multiset(group_of(es.take(i as int), kind), info@);
                }
                match kind {
                    EntryKind::File => insert_sorted(&mut files, info),
                    EntryKind::Directory => insert_sorted(&mut directories, info),
                    EntryKind::Executable => insert_sorted(&mut executables, info),
                }
            },
            None => {},
        }
        i = i + 1;
    }
    proof {
        assert(es.take(i as int) =~= es);
        lemma_sorted_is_sort(infos(files@), group_of(es, EntryKind::File));
        lemma_sorted_is_sort(infos(directories@), group_of(es, EntryKind::Directory));
        lemma_sorted_is_sort(infos(executables@), group_of(es, EntryKind::Executable));
    }
    DirContents { files, directories, executables }
}

/// What one entry adds to the group of kind `k`.
pub open spec fn contribution(e: RawView, k: EntryKind) -> Multiset<InfoView> {
    match classified(e) {
        Some(c) => if c.0 == k {
            Multiset::singleton(c.1)
        } else {
            Multiset::empty()
        },
        None => Multiset::empty(),
    }
}

proof fn lemma_group_last(s: Seq<RawView>, k: EntryKind)
    requires
        s.len() > 0,
    ensures
        group_of(s, k).to_multiset() == group_of(s.drop_last(), k).to_multiset().add(
            contribution(s.last(), k),
        ),
{
    broadcast use vstd::seq_lib::group_to_multiset_ensures;
    broadcast use vstd::multiset::group_multiset_axioms;

    let rest = group_of(s.drop_last(), k);
    match classified(s.last()) {
        Some(c) => if c.0 == k {
            assert(rest.push(c.1).to_multiset() =~= rest.to_multiset().add(Multiset::singleton(c.1)));
        } else {
            assert(rest.to_multiset() =~= rest.to_multiset().add(Multiset::empty()));
        },
        None => {
            assert(rest.to_multiset() =~= rest.to_multiset().add(Multiset::empty()));
        },
    }
}

proof fn lemma_group_remove(s: Seq<RawView>, j: int, k: EntryKind)
    requires
        0 <= j < s.len(),
    ensures
        group_of(s, k).to_multiset() == group_of(s.remove(j), k).to_multiset().add(
            contribution(s[j], k),
        ),
    decreases s.len(),
{
    broadcast use vstd::multiset::group_multiset_axioms;

    lemma_group_last(s, k);
    if j == s.len() - 1 {
        assert(s.remove(j) =~= s.drop_last());
    } else {
        let t = s.remove(j);
        lemma_group_remove(s.drop_last(), j, k);
        assert(s.drop_last().remove(j) =~= t.drop_last());
        assert(t.last() == s.last());
        lemma_group_last(t, k);
        let a = group_of(t.drop_last(), k).to_multiset();
        let cl = contribution(s.last(), k);
        let cj = contribution(s[j], k);
        assert(a.add(cj).add(cl) =~= a.add(cl).add(cj));
    }
}

proof fn lemma_group_permutation(a: Seq<RawView>, b: Seq<RawView>, k: EntryKind)
    requires
        a.to_multiset() == b.to_multiset(),
    ensures
        group_of(a, k).to_multiset() == group_of(b, k).to_multiset(),
    decreases a.len(),
{
    broadcast use vstd::seq_lib::group_to_multiset_ensures;
    broadcast use vstd::multiset::group_multiset_axioms;

    if a.len() == 0 {
        assert(a.to_multiset().len() == a.len());
        assert(b.to_multiset().len() == b.len());
        assert(b =~= a);
    } else {
        let x = a.last();
        assert(a.to_multiset().count(x) > 0) by {
            assert(a.contains(x));
        }
        assert(b.contains(x));
        let j = choose|j: int| 0 <= j < b.len() && b[j] == x;
        assert(a.drop_last() =~= a.remove(a.len() - 1));
        assert(a.drop_last().to_multiset() == a.to_multiset().remove(x));
        assert(b.remove(j).to_multiset() == b.to_multiset().remove(x));
        lemma_group_permutation(a.drop_last(), b.remove(j), k);
        lemma_group_last(a, k);
        lemma_group_remove(b, j, k);
    }
}

/// A listing does not depend on the order in which the directory's entries
/// were enumerated: the same entries, in any order, give the same groups in
/// the same order.
pub proof fn lemma_listing_ignores_enumeration_order(a: Seq<RawView>, b: Seq<RawView>)
    requires
        a.to_multiset() == b.to_multiset(),
    ensures
        listed(a, EntryKind::File) == listed(b, EntryKind::File),
        listed(a, EntryKind::Directory) == listed(b, EntryKind::Directory),
        listed(a, EntryKind::Executable) == listed(b, EntryKind::Executable),
{
    lemma_info_order_total();
    lemma_group_permutation(a, b, EntryKind::File);
    lemma_group_permutation(a, b, EntryKind::Directory);
    lemma_group_permutation(a, b, EntryKind::Executable);
    group_of(a, EntryKind::File).lemma_sort_by_ensures(info_order());
    group_of(b, EntryKind::File).lemma_sort_by_ensures(info_order());
    group_of(a, EntryKind::Directory).lemma_sort_by_ensures(info_order());
    group_of(b, EntryKind::Directory).lemma_sort_by_ensures(info_order());
    group_of(a, EntryKind::Executable).lemma_sort_by_ensures(info_order());
    group_of(b, EntryKind::Executable).lemma_sort_by_ensures(info_order());
    vstd::seq_lib::lemma_sorted_unique(listed(a, EntryKind::File), listed(b, EntryKind::File), info_order());
    vstd::seq_lib::lemma_sorted_unique(
        listed(a, EntryKind::Directory),
        listed(b, EntryKind::Directory),
        info_order(),
    );
    vstd::seq_lib::lemma_sorted_unique(
        listed(a, EntryKind::Executable),
        listed(b, EntryKind::Executable),
        info_order(),
    );
}

proof fn lemma_group_has_no_dot_entries(es: Seq<RawView>, k: EntryKind)
    ensures
        forall|i: int| 0 <= i < group_of(es, k).len() ==> !is_dot_entry(#[trigger] group_of(es, k)[i].name),
    decreases es.len(),
{
    if es.len() > 0 {
        lemma_group_has_no_dot_entries(es.drop_last(), k);
        let rest = group_of(es.drop_last(), k);
        assert forall|i: int| 0 <= i < group_of(es, k).len() implies !is_dot_entry(
            #[trigger] group_of(es, k)[i].name,
        ) by {
            if i < rest.len() {
                assert(group_of(es, k)[i] == rest[i]);
            }
        }
    }
}

/// The entries `.` and `..` are never listed.
pub proof fn lemma_dot_entries_never_listed(es: Seq<RawView>, k: EntryKind)
    ensures
        forall|i: int| 0 <= i < listed(es, k).len() ==> !is_dot_entry(#[trigger] listed(es, k)[i].name),
{
    broadcast use vstd::seq_lib::group_to_multiset_ensures;

    lemma_info_order_total();
    lemma_group_has_no_dot_entries(es, k);
    group_of(es, k).lemma_sort_by_ensures(info_order());
    assert forall|i: int| 0 <= i < listed(es, k).len() implies !is_dot_entry(#[trigger] listed(es, k)[i].name) by {
        let x = listed(es, k)[i];
        assert(listed(es, k).contains(x));
        assert(group_of(es, k).contains(x));
    }
}

proof fn lemma_group_contains(es: Seq<RawView>, j: int, k: EntryKind)
    requires
        0 <= j < es.len(),
        classified(es[j]) matches Some(c) && c.0 == k,
    ensures
        classified(es[j]) matches Some(c) ==> group_of(es, k).contains(c.1),
    decreases es.len(),
{
    let v = (classified(es[j])->0).1;
    let rest = group_of(es.drop_last(), k);
    if j == es.len() - 1 {
        assert(group_of(es, k) == rest.push(v));
        assert(group_of(es, k)[rest.len() as int] == v);
    } else {
        assert(es.drop_last()[j] == es[j]);
        lemma_group_contains(es.drop_last(), j, k);
        let i = choose|i: int| 0 <= i < rest.len() && rest[i] == v;
        assert(group_of(es, k)[i] == v);
    }
}

proof fn lemma_group_origin(es: Seq<RawView>, k: EntryKind, i: int)
    requires
        0 <= i < group_of(es, k).len(),
    ensures
        exists|j: int| 0 <= j < es.len() && classified(es[j]) == Some((k, #[trigger] group_of(es, k)[i])),
    decreases es.len(),
{
    let rest = group_of(es.drop_last(), k);
    if i < rest.len() {
        assert(group_of(es, k)[i] == rest[i]);
        lemma_group_origin(es.drop_last(), k, i);
        let j = choose|j: int| 0 <= j < es.drop_last().len() && classified(es.drop_last()[j]) == Some((k, #[trigger] rest[i]));
        assert(es.drop_last()[j] == es[j]);
    } else {
        assert(classified(es[es.len() - 1]) == Some((k, group_of(es, k)[i])));
    }
}

pub(crate) proof fn lemma_listed_same_elements(es: Seq<RawView>, k: EntryKind, v: InfoView)
    ensures
        listed(es, k).contains(v) == group_of(es, k).contains(v),
        listed(es, k).len() == group_of(es, k).len(),
{
    broadcast use vstd::seq_lib::group_to_multiset_ensures;

    lemma_info_order_total();
    let g = group_of(es, k);
    let l = listed(es, k);
    g.lemma_sort_by_ensures(info_order());
    assert(l.to_multiset() == g.to_multiset());
    assert(l.to_multiset().len() == l.len());
    assert(g.to_multiset().len() == g.len());
    assert(l.contains(v) <==> l.to_multiset().count(v) > 0);
    assert(g.contains(v) <==> g.to_multiset().count(v) > 0);
}

/// A listable regular file with an execute bit, in a directory whose names
/// are distinct, is listed among the executables and in no other group,
/// whatever its extension.
pub proof fn lemma_executable_file_listed_as_executable(es: Seq<RawView>, j: int)
    requires
        0 <= j < es.len(),
        es[j].meta matches Some(m) && m.is_file && !m.is_dir && m.mode & 0o111u32 != 0,
        classified(es[j]) is Some,
        forall|a: int, b: int| 0 <= a < b < es.len() ==> es[a].name != es[b].name,
    ensures
        exists|i: int|
            0 <= i < listed(es, EntryKind::Executable).len() && (#[trigger] listed(
                es,
                EntryKind::Executable,
            )[i]).name == es[j].name,
        forall|i: int|
            0 <= i < listed(es, EntryKind::File).len() ==> (#[trigger] listed(es, EntryKind::File)[i]).name
                != es[j].name,
        forall|i: int|
            0 <= i < listed(es, EntryKind::Directory).len() ==> (#[trigger] listed(
                es,
                EntryKind::Directory,
            )[i]).name != es[j].name,
{
    let v = (classified(es[j])->0).1;
    lemma_group_contains(es, j, EntryKind::Executable);
    lemma_listed_same_elements(es, EntryKind::Executable, v);
    let i = choose|i: int| 0 <= i < listed(es, EntryKind::Executable).len() && listed(es, EntryKind::Executable)[i] == v;
    assert(listed(es, EntryKind::Executable)[i].name == es[j].name);
    assert forall|i: int| 0 <= i < listed(es, EntryKind::File).len() implies (#[trigger] listed(es, EntryKind::File)[i]).name != es[j].name by {
        let w = listed(es, EntryKind::File)[i];
        lemma_listed_same_elements(es, EntryKind::File, w);
        assert(listed(es, EntryKind::File).contains(w));
        let g = choose|g: int| 0 <= g < group_of(es, EntryKind::File).len() && group_of(es, EntryKind::File)[g] == w;
        lemma_group_origin(es, EntryKind::File, g);
    }
    assert forall|i: int| 0 <= i < listed(es, EntryKind::Directory).len() implies (#[trigger] listed(es, EntryKind::Directory)[i]).name != es[j].name by {
        let w = listed(es, EntryKind::Directory)[i];
        lemma_listed_same_elements(es, EntryKind::Directory, w);
        assert(listed(es, EntryKind::Directory).contains(w));
        let g = choose|g: int| 0 <= g < group_of(es, EntryKind::Directory).len() && group_of(es, EntryKind::Directory)[g] == w;
        lemma_group_origin(es, EntryKind::Directory, g);
    }
}

} // verus!
