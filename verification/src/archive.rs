//! Archive support: recognising archives, naming what they extract into, and
//! building the commands that do the work. Extraction and compression are left
//! to the standard tools (tar, unzip, zip, 7z, unrar); the commands are run by
//! the caller.
use vstd::prelude::*;

use crate::fileops;
use crate::text;

verus! {

broadcast use vstd::string::group_string_axioms;

/// An archive format we can extract.
#[derive(Debug, Clone, Copy, PartialEq, Eq, Structural)]
pub enum Format {
    Zip,
    /// `.tar` and every compressed tar — `tar -xf` detects the compression.
    Tar,
    SevenZip,
    Rar,
}

/// A format we can create.
#[derive(Debug, Clone, Copy, PartialEq, Eq, Structural)]
pub enum Compress {
    Zip,
    TarGz,
    TarXz,
}

/// How many archive extensions are recognised.
pub const EXTENSION_COUNT: usize = 12;

/// The recognised archive extensions, longest first so `.tar.gz` wins over `.gz`.
pub open spec fn extension_at(i: int) -> Seq<char> {
    if i == 0 {
        ".tar.gz"@
    } else if i == 1 {
        ".tar.bz2"@
    } else if i == 2 {
        ".tar.xz"@
    } else if i == 3 {
        ".tar.zst"@
    } else if i == 4 {
        ".tgz"@
    } else if i == 5 {
        ".tbz2"@
    } else if i == 6 {
        ".tbz"@
    } else if i == 7 {
        ".txz"@
    } else if i == 8 {
        ".tar"@
    } else if i == 9 {
        ".zip"@
    } else if i == 10 {
        ".7z"@
    } else {
        ".rar"@
    }
}

/// The format that the `i`th extension marks.
pub open spec fn format_at(i: int) -> Format {
    if i <= 8 {
        Format::Tar
    } else if i == 9 {
        Format::Zip
    } else if i == 10 {
        Format::SevenZip
    } else {
        Format::Rar
    }
}

/// The `i`th recognised extension.
fn extension_str(i: usize) -> (e: &'static str)
    requires
        i < EXTENSION_COUNT,
    ensures
        e@ == extension_at(i as int),
{
    if i == 0 {
        ".tar.gz"
    } else if i == 1 {
        ".tar.bz2"
    } else if i == 2 {
        ".tar.xz"
    } else if i == 3 {
        ".tar.zst"
    } else if i == 4 {
        ".tgz"
    } else if i == 5 {
        ".tbz2"
    } else if i == 6 {
        ".tbz"
    } else if i == 7 {
        ".txz"
    } else if i == 8 {
        ".tar"
    } else if i == 9 {
        ".zip"
    } else if i == 10 {
        ".7z"
    } else {
        ".rar"
    }
}

/// The format of the `i`th recognised extension.
fn format_of(i: usize) -> (f: Format)
    requires
        i < EXTENSION_COUNT,
    ensures
        f == format_at(i as int),
{
    if i <= 8 {
        Format::Tar
    } else if i == 9 {
        Format::Zip
    } else if i == 10 {
        Format::SevenZip
    } else {
        Format::Rar
    }
}

/// `c` lowercased, for the ASCII letters; every other character as it is.
pub open spec fn ascii_lower(c: char) -> char {
    if 'A' <= c <= 'Z' {
        (c as int + 32) as char
    } else {
        c
    }
}

/// Whether `name` ends with `ext`, ignoring ASCII case, and has more to it than
/// the extension. (Unicode lowercasing agrees with ASCII lowercasing here: the
/// only other characters that lowercase to an ASCII letter are the Kelvin sign,
/// to `k`, and `İ`, to `i` followed by a combining dot; no extension holds a `k`,
/// and the combining dot is not ASCII.)
pub open spec fn ends_with_ext(name: Seq<char>, ext: Seq<char>) -> bool {
    &&& name.len() > ext.len()
    &&& forall|k: int|
        0 <= k < ext.len() ==> ascii_lower(#[trigger] name[name.len() - ext.len() + k]) == ext[k]
}

/// The first recognised extension, from the `i`th on, that `name` ends with.
pub open spec fn first_extension_from(name: Seq<char>, i: int) -> Option<int>
    decreases EXTENSION_COUNT - i,
{
    if i >= EXTENSION_COUNT || i < 0 {
        None
    } else if ends_with_ext(name, extension_at(i)) {
        Some(i)
    } else {
        first_extension_from(name, i + 1)
    }
}

/// The archive extension `name` ends with (as its index in the table), if any.
pub open spec fn matching_extension_spec(name: Seq<char>) -> Option<int> {
    first_extension_from(name, 0)
}

/// `c` lowercased, for the ASCII letters.
fn lower_char(c: char) -> (r: char)
    ensures
        r == ascii_lower(c),
{
    if 'A' <= c && c <= 'Z' {
        ((c as u32 + 32) as u8) as char
    } else {
        c
    }
}

/// Whether `name` ends with `ext` (ignoring ASCII case) and is longer.
fn ends_with_ext_exec(name: &[char], ext: &[char]) -> (r: bool)
    ensures
        r == ends_with_ext(name@, ext@),
{
    if name.len() <= ext.len() {
        return false;
    }
    let off = name.len() - ext.len();
    let mut k: usize = 0;
    while k < ext.len()
        invariant
            off == name.len() - ext.len(),
            k <= ext.len(),
            forall|j: int| 0 <= j < k ==> ascii_lower(#[trigger] name@[off + j]) == ext@[j],
        decreases ext.len() - k,
    {
        if lower_char(name[off + k]) != ext[k] {
            return false;
        }
        k += 1;
    }
    true
}

/// The archive extension `name` ends with (its index in the table), if any.
fn matching_extension(name: &[char]) -> (r: Option<usize>)
    ensures
        r matches Some(i) ==> i < EXTENSION_COUNT && matching_extension_spec(name@) == Some(
            i as int,
        ) && ends_with_ext(name@, extension_at(i as int)),
        r is None ==> matching_extension_spec(name@) is None,
{
    let mut i: usize = 0;
    while i < EXTENSION_COUNT
        invariant
            i <= EXTENSION_COUNT,
            matching_extension_spec(name@) == first_extension_from(name@, i as int),
        decreases EXTENSION_COUNT - i,
    {
        let ext = text::chars_of(extension_str(i));
        if ends_with_ext_exec(name, &ext) {
            return Some(i);
        }
        i += 1;
    }
    None
}

/// What `base_name` gives: `name` without its archive extension, or `name`.
pub open spec fn base_name_spec(name: Seq<char>) -> Seq<char> {
    match matching_extension_spec(name) {
        Some(i) => name.take(name.len() - extension_at(i).len()),
        None => name,
    }
}

/// The binary that extracts `f`.
pub open spec fn format_tool(f: Format) -> Seq<char> {
    match f {
        Format::Zip => "unzip"@,
        Format::Tar => "tar"@,
        Format::SevenZip => "7z"@,
        Format::Rar => "unrar"@,
    }
}

/// The command (as its arguments) that extracts `archive` into the existing
/// directory `dest` with format `f`.
pub open spec fn extract_argv_spec(f: Format, archive: Seq<char>, dest: Seq<char>) -> Seq<
    Seq<char>,
> {
    match f {
        Format::Tar => seq![format_tool(f), "-xf"@, archive, "-C"@, dest],
        Format::Zip => seq![format_tool(f), "-q"@, archive, "-d"@, dest],
        Format::SevenZip => seq![format_tool(f), "x"@, "-y"@, "-o"@ + dest, archive],
        Format::Rar => seq![format_tool(f), "x"@, "-y"@, archive, dest + "/"@],
    }
}

/// The extension that a `c` archive is given.
pub open spec fn compress_extension(c: Compress) -> Seq<char> {
    match c {
        Compress::Zip => ".zip"@,
        Compress::TarGz => ".tar.gz"@,
        Compress::TarXz => ".tar.xz"@,
    }
}

/// The binary that creates a `c` archive.
pub open spec fn compress_tool(c: Compress) -> Seq<char> {
    match c {
        Compress::Zip => "zip"@,
        Compress::TarGz => "tar"@,
        Compress::TarXz => "tar"@,
    }
}

/// The command (as its arguments) that packs `items` into `output` as `c`.
pub open spec fn compress_argv_spec(c: Compress, output: Seq<char>, items: Seq<Seq<char>>) -> Seq<
    Seq<char>,
> {
    let head = match c {
        Compress::Zip => seq![compress_tool(c), "-r"@, "-q"@, output],
        Compress::TarGz => seq![compress_tool(c), "-czf"@, output],
        Compress::TarXz => seq![compress_tool(c), "-cJf"@, output],
    };
    head + items
}


/// The owned copy of `s`.
fn owned(s: &str) -> (r: String)
    ensures
        r@ == s@,
{
    s.to_owned()
}

impl Format {
    /// The archive format `name` denotes, if any. Case-insensitive.
    pub fn from_name(name: &str) -> (r: Option<Format>)
        ensures
            r == (match matching_extension_spec(name@) {
                Some(i) => Some(format_at(i)),
                None => None,
            }),
    {
        let cs = text::chars_of(name);
        match matching_extension(&cs) {
            Some(i) => Some(format_of(i)),
            None => None,
        }
    }

    /// The binary needed to extract this format.
    pub fn tool(self) -> (t: &'static str)
        ensures
            t@ == format_tool(self),
    {
        match self {
            Format::Zip => "unzip",
            Format::Tar => "tar",
            Format::SevenZip => "7z",
            Format::Rar => "unrar",
        }
    }

    /// The command that extracts `archive` into the existing directory `dest`.
    pub fn extract_argv(self, archive: &str, dest: &str) -> (argv: Vec<String>)
        ensures
            text::strings(argv@) == extract_argv_spec(self, archive@, dest@),
    {
        let tool = owned(self.tool());
        let mut argv: Vec<String> = Vec::new();
        argv.push(tool);
        match self {
            // `tar -xf` detects gz/bz2/xz/zst itself.
            Format::Tar => {
                argv.push(owned("-xf"));
                argv.push(owned(archive));
                argv.push(owned("-C"));
                argv.push(owned(dest));
            },
            Format::Zip => {
                argv.push(owned("-q"));
                argv.push(owned(archive));
                argv.push(owned("-d"));
                argv.push(owned(dest));
            },
            // 7z wants the destination glued to -o, with no space.
            Format::SevenZip => {
                argv.push(owned("x"));
                argv.push(owned("-y"));
                let out = owned("-o").concat(dest);
                argv.push(out);
                argv.push(owned(archive));
            },
            // unrar needs a trailing separator on the destination.
            Format::Rar => {
                argv.push(owned("x"));
                argv.push(owned("-y"));
                argv.push(owned(archive));
                let out = owned(dest).concat("/");
                argv.push(out);
            },
        }
        assert(text::strings(argv@) =~= extract_argv_spec(self, archive@, dest@));
        argv
    }
}

impl Compress {
    /// The extension an archive of this kind is given.
    pub fn extension(self) -> (e: &'static str)
        ensures
            e@ == compress_extension(self),
    {
        match self {
            Compress::Zip => ".zip",
            Compress::TarGz => ".tar.gz",
            Compress::TarXz => ".tar.xz",
        }
    }

    /// The binary that creates an archive of this kind.
    pub fn tool(self) -> (t: &'static str)
        ensures
            t@ == compress_tool(self),
    {
        match self {
            Compress::Zip => "zip",
            Compress::TarGz | Compress::TarXz => "tar",
        }
    }

    /// The command that packs `items` (names relative to the working directory)
    /// into `output`.
    pub fn argv(self, output: &str, items: &[String]) -> (argv: Vec<String>)
        ensures
            text::strings(argv@) == compress_argv_spec(self, output@, text::strings(items@)),
    {
        let mut argv: Vec<String> = Vec::new();
        argv.push(owned(self.tool()));
        match self {
            Compress::Zip => {
                argv.push(owned("-r"));
                argv.push(owned("-q"));
            },
            Compress::TarGz => {
                argv.push(owned("-czf"));
            },
            Compress::TarXz => {
                argv.push(owned("-cJf"));
            },
        }
        argv.push(owned(output));
        let ghost head = text::strings(argv@);
        let mut i: usize = 0;
        broadcast use vstd::seq_lib::group_seq_properties;

        while i < items.len()
            invariant
                i <= items.len(),
                text::strings(argv@) == head + text::strings(items@).take(i as int),
            decreases items.len() - i,
        {
            let ghost before = argv@;
            let item = items[i].clone();
            assert(item@ == items@[i as int]@);
            argv.push(item);
            assert(argv@ == before.push(item));
            assert(text::strings(argv@) =~= text::strings(before).push(item@));
            assert(text::strings(items@).take(i + 1) =~= text::strings(items@).take(i as int).push(item@));
            i += 1;
            assert(text::strings(argv@) =~= head + text::strings(items@).take(i as int));
        }
        assert(text::strings(items@).take(items.len() as int) =~= text::strings(items@));
        assert(text::strings(argv@) =~= compress_argv_spec(self, output@, text::strings(items@)));
        argv
    }
}

/// `name` with its archive extension removed — what the archive extracts into.
/// A name that isn't an archive comes back unchanged.
pub fn base_name(name: &str) -> (r: String)
    ensures
        r@ == base_name_spec(name@),
{
    let cs = text::chars_of(name);
    match matching_extension(&cs) {
        Some(i) => {
            let ext = text::chars_of(extension_str(i));
            owned(name.substring_char(0, cs.len() - ext.len()))
        },
        None => owned(name),
    }
}

/// What `default_archive_name` suggests for a selection named `items`.
pub open spec fn default_archive_name_spec(items: Seq<Seq<char>>) -> Seq<char> {
    if items.len() == 1 {
        fileops::split_name_spec(items[0]).0
    } else {
        "Archive"@
    }
}

/// The default name to suggest when compressing `items` (no extension): the lone
/// item's stem, or "Archive" for a multi-item selection.
pub fn default_archive_name(items: &[String]) -> (r: String)
    ensures
        r@ == default_archive_name_spec(text::strings(items@)),
{
    if items.len() == 1 {
        let (stem, _) = fileops::split_name(items[0].as_str());
        owned(stem)
    } else {
        owned("Archive")
    }
}

// ---------------------------------------------------------------------------
// Laws
// ---------------------------------------------------------------------------

/// Two names that differ only in ASCII case end with the same extensions.
proof fn lemma_first_extension_case(a: Seq<char>, b: Seq<char>, i: int)
    requires
        a.len() == b.len(),
        forall|k: int| 0 <= k < a.len() ==> ascii_lower(#[trigger] a[k]) == ascii_lower(b[k]),
    ensures
        first_extension_from(a, i) == first_extension_from(b, i),
    decreases EXTENSION_COUNT - i,
{
    if 0 <= i < EXTENSION_COUNT {
        let e = extension_at(i);
        assert(ends_with_ext(a, e) == ends_with_ext(b, e)) by {
            if a.len() > e.len() {
                if ends_with_ext(a, e) {
                    assert forall|k: int| 0 <= k < e.len() implies ascii_lower(
                        #[trigger] b[b.len() - e.len() + k],
                    ) == e[k] by {
                        assert(ascii_lower(a[a.len() - e.len() + k]) == e[k]);
                    }
                }
                if ends_with_ext(b, e) {
                    assert forall|k: int| 0 <= k < e.len() implies ascii_lower(
                        #[trigger] a[a.len() - e.len() + k],
                    ) == e[k] by {
                        assert(ascii_lower(b[b.len() - e.len() + k]) == e[k]);
                    }
                }
            }
        }
        lemma_first_extension_case(a, b, i + 1);
    }
}

/// Recognition is case-insensitive: names that differ only in the case of ASCII
/// letters denote the same format.
pub proof fn lemma_format_ignores_case(a: Seq<char>, b: Seq<char>)
    requires
        a.len() == b.len(),
        forall|k: int| 0 <= k < a.len() ==> ascii_lower(#[trigger] a[k]) == ascii_lower(b[k]),
    ensures
        matching_extension_spec(a) == matching_extension_spec(b),
{
    lemma_first_extension_case(a, b, 0);
}

proof fn lemma_first_extension_found(name: Seq<char>, i: int)
    ensures
        first_extension_from(name, i) matches Some(j) ==> 0 <= j < EXTENSION_COUNT && ends_with_ext(
            name,
            extension_at(j),
        ),
    decreases EXTENSION_COUNT - i,
{
    if 0 <= i < EXTENSION_COUNT {
        lemma_first_extension_found(name, i + 1);
    }
}

/// The base name is the archive's name less its whole extension: base name and
/// extension put back together are the name, and only a name that is not an
/// archive keeps its base name unchanged.
pub proof fn lemma_base_name_strips_extension(name: Seq<char>)
    ensures
        matching_extension_spec(name) matches Some(i) ==> base_name_spec(name) + name.skip(
            name.len() - extension_at(i).len(),
        ) == name && base_name_spec(name).len() > 0 && base_name_spec(name) != name,
        matching_extension_spec(name) is None ==> base_name_spec(name) == name,
{
    lemma_first_extension_found(name, 0);
    if let Some(i) = matching_extension_spec(name) {
        let e = extension_at(i);
        reveal_strlit(".tar.gz");
        reveal_strlit(".tar.bz2");
        reveal_strlit(".tar.xz");
        reveal_strlit(".tar.zst");
        reveal_strlit(".tgz");
        reveal_strlit(".tbz2");
        reveal_strlit(".tbz");
        reveal_strlit(".txz");
        reveal_strlit(".tar");
        reveal_strlit(".zip");
        reveal_strlit(".7z");
        reveal_strlit(".rar");
        assert(e.len() > 0);
        assert(name.take(name.len() - e.len()) + name.skip(name.len() - e.len()) =~= name);
    }
}

/// A name does not end with `ext` when one of its characters differs where
/// `ext` would stand.
proof fn lemma_not_ending(n: Seq<char>, ext: Seq<char>, k: int)
    requires
        0 <= k < ext.len(),
        n.len() > ext.len() ==> ascii_lower(n[n.len() - ext.len() + k]) != ext[k],
    ensures
        !ends_with_ext(n, ext),
{
}

/// An archive made by compressing to `stem` as `c` is recognised as the format
/// that extracts it, and its base name is `stem` again.
pub proof fn lemma_compressed_name_round_trip(stem: Seq<char>, c: Compress)
    requires
        stem.len() > 0,
    ensures
        matching_extension_spec(stem + compress_extension(c)) matches Some(i) && format_at(i) == (
        if c == Compress::Zip {
            Format::Zip
        } else {
            Format::Tar
        }),
        base_name_spec(stem + compress_extension(c)) == stem,
{
    reveal_strlit(".tar.gz");
    reveal_strlit(".tar.bz2");
    reveal_strlit(".tar.xz");
    reveal_strlit(".tar.zst");
    reveal_strlit(".tgz");
    reveal_strlit(".tbz2");
    reveal_strlit(".tbz");
    reveal_strlit(".txz");
    reveal_strlit(".tar");
    reveal_strlit(".zip");
    reveal_strlit(".7z");
    reveal_strlit(".rar");
    let e = compress_extension(c);
    let n = stem + e;
    assert(n.len() == stem.len() + e.len());
    assert forall|k: int| 0 <= k < e.len() implies ascii_lower(#[trigger] n[n.len() - e.len() + k])
        == e[k] by {
        assert(n[n.len() - e.len() + k] == e[k]);
    }
    assert(ends_with_ext(n, e));
    assert(n[n.len() - 1] == e[e.len() - 1]);
    match c {
        Compress::TarGz => {
            assert(e == extension_at(0));
        },
        Compress::TarXz => {
            assert(e == extension_at(2));
            assert(n[n.len() - 2] == e[e.len() - 2]);
            lemma_not_ending(n, extension_at(0), 5);
            lemma_not_ending(n, extension_at(1), 7);
            assert(first_extension_from(n, 1) == first_extension_from(n, 2));
        },
        Compress::Zip => {
            assert(e == extension_at(9));
            lemma_not_ending(n, extension_at(0), 6);
            lemma_not_ending(n, extension_at(1), 7);
            lemma_not_ending(n, extension_at(2), 6);
            lemma_not_ending(n, extension_at(3), 7);
            lemma_not_ending(n, extension_at(4), 3);
            lemma_not_ending(n, extension_at(5), 4);
            lemma_not_ending(n, extension_at(6), 3);
            lemma_not_ending(n, extension_at(7), 3);
            lemma_not_ending(n, extension_at(8), 3);
            assert(first_extension_from(n, 8) == first_extension_from(n, 9));
            assert(first_extension_from(n, 7) == first_extension_from(n, 9));
            assert(first_extension_from(n, 6) == first_extension_from(n, 9));
            assert(first_extension_from(n, 5) == first_extension_from(n, 9));
            assert(first_extension_from(n, 4) == first_extension_from(n, 9));
            assert(first_extension_from(n, 3) == first_extension_from(n, 9));
            assert(first_extension_from(n, 2) == first_extension_from(n, 9));
            assert(first_extension_from(n, 1) == first_extension_from(n, 9));
        },
    }
    assert(n.take(n.len() - e.len()) =~= stem);
}

} // verus!
