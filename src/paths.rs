//! Where a finished download goes: a subfolder chosen by the file's extension.
#![allow(non_snake_case)]

use vstd::prelude::*;

verus! {

/// Extensions of audio files.
pub open spec fn audio_exts() -> Seq<Seq<char>> {
    seq![
        "act"@, "aiff"@, "aac"@, "amr"@, "ape"@, "au"@, "awb"@, "dct"@, "dss"@, "dvf"@,
        "flac"@, "gsm"@, "iklax"@, "ivs"@, "m4a"@, "m4p"@, "mmf"@, "mp3"@, "mpc"@, "msv"@,
        "ogg"@, "oga"@, "opus"@, "ra"@, "raw"@, "sln"@, "tta"@, "vox"@, "wav"@, "wma"@, "wv"@,
    ]
}

/// Extensions of video files.
pub open spec fn video_exts() -> Seq<Seq<char>> {
    seq![
        "3g2"@, "3gp"@, "asf"@, "avi"@, "drc"@, "flv"@, "m4v"@, "mkv"@, "mng"@, "mov"@, "qt"@,
        "mp4"@, "m4p"@, "mpg"@, "mp2"@, "mpeg"@, "mpe"@, "mpv"@, "m2v"@, "mxf"@, "nsv"@,
        "ogv"@, "rmvb"@, "roq"@, "svi"@, "vob"@, "webm"@, "wmv"@, "yuv"@, "rm"@,
    ]
}

/// Extensions of documents.
pub open spec fn document_exts() -> Seq<Seq<char>> {
    seq![
        "doc"@, "docx"@, "html"@, "htm"@, "fb2"@, "odt"@, "sxw"@, "pdf"@, "ps"@, "rtf"@,
        "tex"@, "txt"@, "epub"@, "pub"@, "mobi"@, "azw"@, "azw3"@, "azw4"@, "kf8"@, "chm"@,
        "cbt"@, "cbr"@, "cbz"@, "cb7"@, "cba"@, "ibooks"@, "djvu"@, "md"@,
    ]
}

/// Extensions of archives.
pub open spec fn compressed_exts() -> Seq<Seq<char>> {
    seq![
        "a"@, "ar"@, "cpio"@, "shar"@, "LBR"@, "iso"@, "lbr"@, "mar"@, "tar"@, "bz2"@, "F"@,
        "gz"@, "lz"@, "lzma"@, "lzo"@, "rz"@, "sfark"@, "sz"@, "xz"@, "Z"@, "z"@, "infl"@,
        "7z"@, "s7z"@, "ace"@, "afa"@, "alz"@, "apk"@, "arc"@, "arj"@, "b1"@, "ba"@, "bh"@,
        "cab"@, "cfs"@, "cpt"@, "dar"@, "dd"@, "dgc"@, "dmg"@, "ear"@, "gca"@, "ha"@, "hki"@,
        "ice"@, "jar"@, "kgb"@, "lzh"@, "lha"@, "lzx"@, "pac"@, "partimg"@, "paq6"@, "paq7"@,
        "paq8"@, "pea"@, "pim"@, "pit"@, "qda"@, "rar"@, "rk"@, "sda"@, "sea"@, "sen"@, "sfx"@,
        "sit"@, "sitx"@, "sqx"@, "tar.gz"@, "tgz"@, "tar.Z"@, "tar.bz2"@, "tbz2"@, "tar.lzma"@,
        "tlz"@, "uc"@, "uc0"@, "uc2"@, "ucn"@, "ur2"@, "ue2"@, "uca"@, "uha"@, "war"@, "wim"@,
        "xar"@, "xp3"@, "yz1"@, "zip"@, "zipx"@, "zoo"@, "zpaq"@, "zz"@, "ecc"@, "par"@,
        "par2"@,
    ]
}

fn audio_exts_list() -> (r: Vec<&'static str>)
    ensures
        r@.map_values(|s: &str| s@) == audio_exts(),
{
    let r = vec![
        "act", "aiff", "aac", "amr", "ape", "au", "awb", "dct", "dss", "dvf", "flac", "gsm",
        "iklax", "ivs", "m4a", "m4p", "mmf", "mp3", "mpc", "msv", "ogg", "oga", "opus", "ra",
        "raw", "sln", "tta", "vox", "wav", "wma", "wv",
    ];
    assert(r@.map_values(|s: &str| s@) =~= audio_exts());
    r
}

fn video_exts_list() -> (r: Vec<&'static str>)
    ensures
        r@.map_values(|s: &str| s@) == video_exts(),
{
    let r = vec![
        "3g2", "3gp", "asf", "avi", "drc", "flv", "m4v", "mkv", "mng", "mov", "qt", "mp4",
        "m4p", "mpg", "mp2", "mpeg", "mpe", "mpv", "m2v", "mxf", "nsv", "ogv", "rmvb", "roq",
        "svi", "vob", "webm", "wmv", "yuv", "rm",
    ];
    assert(r@.map_values(|s: &str| s@) =~= video_exts());
    r
}

fn document_exts_list() -> (r: Vec<&'static str>)
    ensures
        r@.map_values(|s: &str| s@) == document_exts(),
{
    let r = vec![
        "doc", "docx", "html", "htm", "fb2", "odt", "sxw", "pdf", "ps", "rtf", "tex", "txt",
        "epub", "pub", "mobi", "azw", "azw3", "azw4", "kf8", "chm", "cbt", "cbr", "cbz", "cb7",
        "cba", "ibooks", "djvu", "md",
    ];
    assert(r@.map_values(|s: &str| s@) =~= document_exts());
    r
}

fn compressed_exts_list() -> (r: Vec<&'static str>)
    ensures
        r@.map_values(|s: &str| s@) == compressed_exts(),
{
    let r = vec![
        "a", "ar", "cpio", "shar", "LBR", "iso", "lbr", "mar", "tar", "bz2", "F", "gz", "lz",
        "lzma", "lzo", "rz", "sfark", "sz", "xz", "Z", "z", "infl", "7z", "s7z", "ace", "afa",
        "alz", "apk", "arc", "arj", "b1", "ba", "bh", "cab", "cfs", "cpt", "dar", "dd", "dgc",
        "dmg", "ear", "gca", "ha", "hki", "ice", "jar", "kgb", "lzh", "lha", "lzx", "pac",
        "partimg", "paq6", "paq7", "paq8", "pea", "pim", "pit", "qda", "rar", "rk", "sda",
        "sea", "sen", "sfx", "sit", "sitx", "sqx", "tar.gz", "tgz", "tar.Z", "tar.bz2", "tbz2",
        "tar.lzma", "tlz", "uc", "uc0", "uc2", "ucn", "ur2", "ue2", "uca", "uha", "war", "wim",
        "xar", "xp3", "yz1", "zip", "zipx", "zoo", "zpaq", "zz", "ecc", "par", "par2",
    ];
    assert(r@.map_values(|s: &str| s@) =~= compressed_exts());
    r
}

/// Index of the last `c` of `s`, or -1.
pub open spec fn last_index(s: Seq<char>, c: char) -> int
    decreases s.len(),
{
    if s.len() == 0 {
        -1
    } else if s.last() == c {
        s.len() - 1
    } else {
        last_index(s.drop_last(), c)
    }
}

/// The extension of a file name: what follows the last '.' of its last path
/// component, where that '.' is not the component's first character; with a '?'
/// in it, only what precedes the first '?'.
pub open spec fn extension_of(name: Seq<char>) -> Option<Seq<char>> {
    let base = name.subrange(last_index(name, '/') + 1, name.len() as int);
    let k = last_index(base, '.');
    if k <= 0 {
        None
    } else {
        let ext = base.subrange(k + 1, base.len() as int);
        let q = find_first(ext, '?', 0);
        Some(if q < 0 { ext } else { ext.subrange(0, q) })
    }
}

/// Index of the first `c` at or after `i`, or -1.
pub open spec fn find_first(s: Seq<char>, c: char, i: nat) -> int
    decreases s.len() - i,
{
    if i >= s.len() {
        -1
    } else if s[i as int] == c {
        i as int
    } else {
        find_first(s, c, i + 1)
    }
}

/// Whether `c` in lower case is `e` (ASCII letters only change case).
pub open spec fn lowers_to(c: char, e: char) -> bool {
    if 'A' <= c && c <= 'Z' { c as u32 + 32 == e as u32 } else { c == e }
}

/// Whether `x` in lower case is `e`.
pub open spec fn lower_equals(x: Seq<char>, e: Seq<char>) -> bool {
    x.len() == e.len() && forall|i: int| 0 <= i < x.len() ==> #[trigger] lowers_to(x[i], e[i])
}

/// Whether `x` in lower case is one of `list`.
pub open spec fn lower_in(x: Seq<char>, list: Seq<Seq<char>>) -> bool {
    exists|i: int| 0 <= i < list.len() && lower_equals(x, #[trigger] list[i])
}

/// The subfolder for a file name, by its extension.
pub open spec fn folder_for(name: Seq<char>) -> Seq<char> {
    match extension_of(name) {
        None => "Other"@,
        Some(x) => if lower_in(x, audio_exts()) {
            "Audios"@
        } else if lower_in(x, video_exts()) {
            "Videos"@
        } else if lower_in(x, document_exts()) {
            "Documents"@
        } else if lower_in(x, compressed_exts()) {
            "Compressed"@
        } else {
            "Other"@
        },
    }
}

fn lower_eq(x: &str, e: &str) -> (r: bool)
    ensures
        r == lower_equals(x@, e@),
{
    let n = x.unicode_len();
    if n != e.unicode_len() {
        return false;
    }
    let mut i: usize = 0;
    while i < n
        invariant
            n == x@.len() == e@.len(),
            i <= n,
            forall|j: int| 0 <= j < i ==> #[trigger] lowers_to(x@[j], e@[j]),
        decreases n - i,
    {
        let c = x.get_char(i);
        let d = e.get_char(i);
        let ok = if 'A' <= c && c <= 'Z' { c as u32 + 32 == d as u32 } else { c == d };
        if !ok {
            assert(x@[i as int] == c && e@[i as int] == d);
            assert(!lowers_to(x@[i as int], e@[i as int]));
            return false;
        }
        i = i + 1;
    }
    true
}

fn lower_in_list(x: &str, list: &Vec<&'static str>) -> (r: bool)
    ensures
        r == lower_in(x@, list@.map_values(|s: &str| s@)),
{
    let ghost l = list@.map_values(|s: &str| s@);
    let mut i: usize = 0;
    while i < list.len()
        invariant
            i <= list.len(),
            l == list@.map_values(|s: &str| s@),
            forall|j: int| 0 <= j < i ==> !lower_equals(x@, #[trigger] l[j]),
        decreases list.len() - i,
    {
        if lower_eq(x, list[i]) {
            assert(lower_equals(x@, l[i as int]));
            return true;
        }
        i = i + 1;
    }
    false
}

/// The extension of a file name (see `extension_of`).
fn extension(name: &str) -> (r: Option<&str>)
    ensures
        match r {
            Some(x) => extension_of(name@) == Some(x@),
            None => extension_of(name@).is_none(),
        },
{
    let n = name.unicode_len();
    let mut s: usize = n;
    assert(name@.subrange(0, n as int) =~= name@);
    while s > 0 && name.get_char(s - 1) != '/'
        invariant
            s <= n == name@.len(),
            last_index(name@.subrange(0, s as int), '/') == last_index(name@, '/'),
        decreases s,
    {
        assert(name@.subrange(0, s as int).drop_last() =~= name@.subrange(0, s as int - 1));
        s = s - 1;
    }
    proof {
        if s > 0 {
            assert(last_index(name@.subrange(0, s as int), '/') == s - 1);
        } else {
            assert(last_index(name@.subrange(0, 0), '/') == -1);
        }
    }
    let base = name.substring_char(s, n);
    let bn = base.unicode_len();
    let mut k: usize = bn;
    assert(base@.subrange(0, bn as int) =~= base@);
    while k > 0 && base.get_char(k - 1) != '.'
        invariant
            k <= bn == base@.len(),
            last_index(base@.subrange(0, k as int), '.') == last_index(base@, '.'),
        decreases k,
    {
        assert(base@.subrange(0, k as int).drop_last() =~= base@.subrange(0, k as int - 1));
        k = k - 1;
    }
    proof {
        if k > 0 {
            assert(last_index(base@.subrange(0, k as int), '.') == k - 1);
        } else {
            assert(last_index(base@.subrange(0, 0), '.') == -1);
        }
    }
    if k <= 1 {
        return None;
    }
    let ext = base.substring_char(k, bn);
    let en = ext.unicode_len();
    let mut q: usize = 0;
    while q < en && ext.get_char(q) != '?'
        invariant
            q <= en == ext@.len(),
            find_first(ext@, '?', 0) == find_first(ext@, '?', q as nat),
        decreases en - q,
    {
        q = q + 1;
    }
    if q == en {
        Some(ext)
    } else {
        Some(ext.substring_char(0, q))
    }
}

/// A folder path followed by a name inside it: a '/' between them unless the
/// path is empty or already ends with one.
pub open spec fn joined(path: Seq<char>, name: Seq<char>) -> Seq<char> {
    if path.len() == 0 || path.last() == '/' { path + name } else { path + "/"@ + name }
}

/// Folder for a finished download: with subfolders, the download folder's
/// "Audios", "Videos", "Documents", "Compressed" or "Other" by the file's
/// extension; without, the download folder itself.
pub fn findDownloadPath(file_name: &str, download_path: &str, subfolder: bool) -> (r: String)
    ensures
        r@ == (if subfolder { joined(download_path@, folder_for(file_name@)) } else { download_path@ }),
{
    if !subfolder {
        return String::from_str(download_path);
    }
    let folder = match extension(file_name) {
        None => "Other",
        Some(x) => if lower_in_list(x, &audio_exts_list()) {
            "Audios"
        } else if lower_in_list(x, &video_exts_list()) {
            "Videos"
        } else if lower_in_list(x, &document_exts_list()) {
            "Documents"
        } else if lower_in_list(x, &compressed_exts_list()) {
            "Compressed"
        } else {
            "Other"
        },
    };
    let mut r = String::from_str(download_path);
    let n = download_path.unicode_len();
    if n > 0 && download_path.get_char(n - 1) != '/' {
        r.append("/");
    }
    r.append(folder);
    r
}

} // verus!
