use vstd::prelude::*;
use vstd::string::*;

verus! {

/// The glyph of each known (lowercase) file extension.
pub open spec fn known_ext_glyph(ext: Seq<char>) -> Option<Seq<char>> {
    if ext == "txt"@ {
        Some("📝"@)
    } else if ext == "md"@ {
        Some("⬇️"@)
    } else if ext == "rs"@ {
        Some("🦀"@)
    } else if ext == "rb"@ {
        Some("💎"@)
    } else if ext == "go"@ {
        Some("🐹"@)
    } else if ext == "py"@ {
        Some("🐍"@)
    } else if ext == "java"@ {
        Some("☕"@)
    } else if ext == "zig"@ {
        Some("⚡"@)
    } else if ext == "c"@ {
        Some("💾"@)
    } else if ext == "cpp"@ {
        Some("💾"@)
    } else if ext == "js"@ {
        Some("📜"@)
    } else if ext == "html"@ {
        Some("🌐"@)
    } else if ext == "css"@ {
        Some("🎨"@)
    } else if ext == "json"@ {
        Some("📑"@)
    } else if ext == "csv"@ {
        Some("📊"@)
    } else if ext == "mp3"@ {
        Some("🎵"@)
    } else if ext == "wav"@ {
        Some("🎵"@)
    } else if ext == "mp4"@ {
        Some("🎬"@)
    } else if ext == "png"@ {
        Some("🖼️"@)
    } else if ext == "jpg"@ {
        Some("📷"@)
    } else if ext == "jpeg"@ {
        Some("📷"@)
    } else if ext == "gif"@ {
        Some("🎞️"@)
    } else if ext == "zip"@ {
        Some("📦"@)
    } else if ext == "jar"@ {
        Some("📦"@)
    } else if ext == "tar"@ {
        Some("📦"@)
    } else if ext == "pdf"@ {
        Some("📕"@)
    } else {
        None
    }
}

/// The glyph of a file whose extension is absent from the table.
pub open spec fn generic_glyph() -> Seq<char> {
    "📄"@
}

/// The part of `name` after its last `'.'`, or `None` when it holds no `'.'`.
pub open spec fn after_last_dot(name: Seq<char>) -> Option<Seq<char>>
    decreases name.len(),
{
    if name.len() == 0 {
        None
    } else if name.last() == '.' {
        Some(Seq::empty())
    } else {
        match after_last_dot(name.drop_last()) {
            Some(e) => Some(e.push(name.last())),
            None => None,
        }
    }
}

/// What `str::to_lowercase` makes of a text.
pub uninterp spec fn lower_of(s: Seq<char>) -> Seq<char>;

/// The glyph shown beside a plain file: looked up by its extension in lower
/// case; a name without extension, or with an unknown one, gets the generic glyph.
pub open spec fn file_glyph(name: Seq<char>) -> Seq<char> {
    match after_last_dot(name) {
        Some(ext) => match known_ext_glyph(lower_of(ext)) {
            Some(g) => g,
            None => generic_glyph(),
        },
        None => generic_glyph(),
    }
}

/// Relies on `str::to_lowercase`: its result depends on the characters alone.
#[verifier::external_body]
pub(crate) fn lowercase(s: &str) -> (r: String)
    ensures
        r@ == lower_of(s@),
{
    s.to_lowercase()
}

/// Whether two texts are the same sequence of characters.
pub fn same_text(a: &str, b: &str) -> (r: bool)
    ensures
        r == (a@ == b@),
{
    let n = a.unicode_len();
    if n != b.unicode_len() {
        return false;
    }
    let mut i: usize = 0;
    while i < n
        invariant
            n == a@.len(),
            n == b@.len(),
            i <= n,
            a@.subrange(0, i as int) == b@.subrange(0, i as int),
        decreases n - i,
    {
        if a.get_char(i) != b.get_char(i) {
            return false;
        }
        assert(a@.subrange(0, i + 1) =~= a@.subrange(0, i as int).push(a@[i as int]));
        assert(b@.subrange(0, i + 1) =~= b@.subrange(0, i as int).push(b@[i as int]));
        i = i + 1;
    }
    assert(a@ =~= a@.subrange(0, n as int));
    assert(b@ =~= b@.subrange(0, n as int));
    true
}

/// The glyph of a lowercase extension, where the table has one.
pub fn glyph_for_extension(ext: &str) -> (r: Option<&'static str>)
    ensures
        r matches Some(g) ==> known_ext_glyph(ext@) == Some(g@),
        r is None ==> known_ext_glyph(ext@) is None,
{
    if same_text(ext, "txt") {
        Some("📝")
    } else if same_text(ext, "md") {
        Some("⬇️")
    } else if same_text(ext, "rs") {
        Some("🦀")
    } else if same_text(ext, "rb") {
        Some("💎")
    } else if same_text(ext, "go") {
        Some("🐹")
    } else if same_text(ext, "py") {
        Some("🐍")
    } else if same_text(ext, "java") {
        Some("☕")
    } else if same_text(ext, "zig") {
        Some("⚡")
    } else if same_text(ext, "c") {
        Some("💾")
    } else if same_text(ext, "cpp") {
        Some("💾")
    } else if same_text(ext, "js") {
        Some("📜")
    } else if same_text(ext, "html") {
        Some("🌐")
    } else if same_text(ext, "css") {
        Some("🎨")
    } else if same_text(ext, "json") {
        Some("📑")
    } else if same_text(ext, "csv") {
        Some("📊")
    } else if same_text(ext, "mp3") {
        Some("🎵")
    } else if same_text(ext, "wav") {
        Some("🎵")
    } else if same_text(ext, "mp4") {
        Some("🎬")
    } else if same_text(ext, "png") {
        Some("🖼️")
    } else if same_text(ext, "jpg") {
        Some("📷")
    } else if same_text(ext, "jpeg") {
        Some("📷")
    } else if same_text(ext, "gif") {
        Some("🎞️")
    } else if same_text(ext, "zip") {
        Some("📦")
    } else if same_text(ext, "jar") {
        Some("📦")
    } else if same_text(ext, "tar") {
        Some("📦")
    } else if same_text(ext, "pdf") {
        Some("📕")
    } else {
        None
    }
}

proof fn lemma_after_last_dot_at(name: Seq<char>, k: int)
    requires
        0 <= k < name.len(),
        name[k] == '.',
        forall|j: int| k < j < name.len() ==> name[j] != '.',
    ensures
        after_last_dot(name) == Some(name.subrange(k + 1, name.len() as int)),
    decreases name.len(),
{
    if k < name.len() - 1 {
        lemma_after_last_dot_at(name.drop_last(), k);
        assert(name.subrange(k + 1, name.len() as int) =~= name.drop_last().subrange(
            k + 1,
            name.len() - 1,
        ).push(name.last()));
    } else {
        assert(name.subrange(k + 1, name.len() as int) =~= Seq::<char>::empty());
    }
}

proof fn lemma_after_last_dot_none(name: Seq<char>)
    requires
        forall|j: int| 0 <= j < name.len() ==> name[j] != '.',
    ensures
        after_last_dot(name) is None,
    decreases name.len(),
{
    if name.len() > 0 {
        lemma_after_last_dot_none(name.drop_last());
    }
}

/// The glyph shown beside a plain file named `file_name`.
pub fn get_file_emoji(file_name: &str) -> (r: &'static str)
    ensures
        r@ == file_glyph(file_name@),
{
    let n = file_name.unicode_len();
    let mut i: usize = n;
    let mut found = false;
    while i > 0
        invariant_except_break
            !found,
        invariant
            n == file_name@.len(),
            i <= n,
            forall|j: int| i <= j < n ==> file_name@[j] != '.',
        ensures
            i <= n,
            forall|j: int| i <= j < n ==> file_name@[j] != '.',
            found ==> 0 < i && file_name@[i - 1] == '.',
            !found ==> i == 0,
        decreases i,
    {
        if file_name.get_char(i - 1) == '.' {
            found = true;
            break;
        }
        i = i - 1;
    }
    if !found {
        proof {
            lemma_after_last_dot_none(file_name@);
        }
        return "📄";
    }
    proof {
        lemma_after_last_dot_at(file_name@, i - 1);
    }
    let ext = file_name.substring_char(i, n);
    let lower = lowercase(ext);
    match glyph_for_extension(lower.as_str()) {
        Some(g) => g,
        None => "📄",
    }
}

/// A file glyph takes at most two characters.
pub proof fn lemma_file_glyph_short(name: Seq<char>)
    ensures
        file_glyph(name).len() <= 2,
{
    reveal_strlit("📝");
    reveal_strlit("⬇️");
    reveal_strlit("🦀");
    reveal_strlit("💎");
    reveal_strlit("🐹");
    reveal_strlit("🐍");
    reveal_strlit("☕");
    reveal_strlit("⚡");
    reveal_strlit("💾");
    reveal_strlit("📜");
    reveal_strlit("🌐");
    reveal_strlit("🎨");
    reveal_strlit("📑");
    reveal_strlit("📊");
    reveal_strlit("🎵");
    reveal_strlit("🎬");
    reveal_strlit("🖼️");
    reveal_strlit("📷");
    reveal_strlit("🎞️");
    reveal_strlit("📦");
    reveal_strlit("📕");
    reveal_strlit("📄");
}

/// Extensions are matched ignoring case: two names whose extensions agree in
/// lower case get the same glyph.
pub proof fn lemma_glyph_ignores_extension_case(a: Seq<char>, b: Seq<char>)
    requires
        after_last_dot(a) is Some,
        after_last_dot(b) is Some,
        lower_of(after_last_dot(a)->0) == lower_of(after_last_dot(b)->0),
    ensures
        file_glyph(a) == file_glyph(b),
{
}

/// A name without a `'.'`, and a name whose extension is not in the table,
/// get the generic glyph.
pub proof fn lemma_unknown_extension_gets_generic_glyph(name: Seq<char>)
    requires
        (forall|j: int| 0 <= j < name.len() ==> name[j] != '.') || (after_last_dot(name) matches Some(e)
            && known_ext_glyph(lower_of(e)) is None),
    ensures
        file_glyph(name) == generic_glyph(),
{
    if forall|j: int| 0 <= j < name.len() ==> name[j] != '.' {
        lemma_after_last_dot_none(name);
    }
}

} // verus!
