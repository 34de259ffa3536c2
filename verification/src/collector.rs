//! Which collected files a scan ignores outright, and which kind of file
//! (image, video, archive) each one is, by its extension.
use vstd::prelude::*;
use crate::text::{chars_of, list_contains, lower_text, str_views, to_lowercase, string_of};
use crate::paths::{extension_or_empty, file_name_or_empty, extension_chars, file_name_chars};

verus! {

/// System files that are never scanned.
pub open spec fn ignore_names() -> Seq<Seq<char>> {
    seq![".DS_Store"@, ".Spotlight-V100"@, ".Trashes"@, ".fseventsd"@, "Thumbs.db"@, "desktop.ini"@]
}

/// Extensions of temporary and partial files, which are never scanned.
pub open spec fn ignore_extensions() -> Seq<Seq<char>> {
    seq![".tmp"@, ".temp"@, ".part"@]
}

/// Extensions of the images compared by perceptual hash.
pub open spec fn image_extensions() -> Seq<Seq<char>> {
    seq![".jpg"@, ".jpeg"@, ".png"@, ".gif"@, ".bmp"@, ".webp"@, ".tiff"@, ".tif"@, ".heic"@, ".heif"@]
}

/// Extensions of the videos compared by sampled frames.
pub open spec fn video_extensions() -> Seq<Seq<char>> {
    seq![".mp4"@, ".mkv"@, ".avi"@, ".mov"@, ".wmv"@, ".flv"@, ".webm"@, ".m4v"@, ".mpg"@, ".mpeg"@, ".ts"@,
        ".mts"@, ".m2ts"@]
}

/// Extensions of the archives whose members are compared.
pub open spec fn archive_extensions() -> Seq<Seq<char>> {
    seq![".zip"@, ".7z"@, ".rar"@]
}

/// A dot and the lowercased extension of the path (just the dot where it has none).
pub open spec fn dotted_extension(p: Seq<char>) -> Seq<char> {
    "."@ + lower_text(extension_or_empty(p))
}

/// Whether a scan ignores the file without looking at it.
pub open spec fn ignored_builtin(p: Seq<char>) -> bool {
    ignore_names().contains(file_name_or_empty(p)) || ignore_extensions().contains(dotted_extension(p))
}

fn dotted_extension_of(path: &str) -> (r: Vec<char>)
    ensures
        r@ == dotted_extension(path@),
{
    let ext = string_of(&extension_chars(path));
    let lower = to_lowercase(ext.as_str());
    let mut d = ".".to_string();
    d.append(lower.as_str());
    chars_of(d.as_str())
}

/// Whether a scan ignores `path` outright: a known system file, or a
/// temporary or partial download.
pub fn should_ignore_builtin(path: &str) -> (r: bool)
    ensures
        r == ignored_builtin(path@),
{
    let names: Vec<&str> = vec![".DS_Store", ".Spotlight-V100", ".Trashes", ".fseventsd", "Thumbs.db", "desktop.ini"];
    assert(str_views(names@) =~= ignore_names());
    if list_contains(&names, &file_name_chars(path)) {
        return true;
    }
    let exts: Vec<&str> = vec![".tmp", ".temp", ".part"];
    assert(str_views(exts@) =~= ignore_extensions());
    list_contains(&exts, &dotted_extension_of(path))
}

/// Whether `path` is an image, by its extension in any case.
pub fn is_image(path: &str) -> (r: bool)
    ensures
        r == image_extensions().contains(dotted_extension(path@)),
{
    let exts: Vec<&str> = vec![".jpg", ".jpeg", ".png", ".gif", ".bmp", ".webp", ".tiff", ".tif", ".heic", ".heif"];
    assert(str_views(exts@) =~= image_extensions());
    list_contains(&exts, &dotted_extension_of(path))
}

/// Whether `path` is a video, by its extension in any case.
pub fn is_video(path: &str) -> (r: bool)
    ensures
        r == video_extensions().contains(dotted_extension(path@)),
{
    let exts: Vec<&str> = vec![".mp4", ".mkv", ".avi", ".mov", ".wmv", ".flv", ".webm", ".m4v", ".mpg", ".mpeg", ".ts",
        ".mts", ".m2ts"];
    assert(str_views(exts@) =~= video_extensions());
    list_contains(&exts, &dotted_extension_of(path))
}

/// Whether `path` is an archive, by its extension in any case.
pub fn is_archive(path: &str) -> (r: bool)
    ensures
        r == archive_extensions().contains(dotted_extension(path@)),
{
    let exts: Vec<&str> = vec![".zip", ".7z", ".rar"];
    assert(str_views(exts@) =~= archive_extensions());
    list_contains(&exts, &dotted_extension_of(path))
}

/// `.` before `e` is the entry at the same place of `list` as `e` in `names`.
proof fn lemma_dotted_in(list: Seq<Seq<char>>, names: Seq<Seq<char>>, e: Seq<char>)
    requires
        list.len() == names.len(),
        forall|i: int| 0 <= i < list.len() ==> #[trigger] list[i] == "."@ + names[i],
    ensures
        list.contains("."@ + e) <==> names.contains(e),
{
    reveal_strlit(".");
    if list.contains("."@ + e) {
        let i = choose|i: int| 0 <= i < list.len() && list[i] == "."@ + e;
        assert(names[i] =~= ("."@ + names[i]).skip(1));
        assert(e =~= ("."@ + e).skip(1));
        assert(names[i] == e);
    }
    if names.contains(e) {
        let i = choose|i: int| 0 <= i < names.len() && names[i] == e;
        assert(list[i] == "."@ + e);
    }
}

/// A file is an image (compared by perceptual hash) exactly when its extension, in lower case, is one of
/// jpg, jpeg, png, gif, bmp, webp, tiff, tif, heic, heif.
pub proof fn law_image_extensions(p: Seq<char>)
    ensures
        image_extensions().contains(dotted_extension(p)) <==> seq!["jpg"@, "jpeg"@, "png"@, "gif"@, "bmp"@, "webp"@, "tiff"@, "tif"@, "heic"@, "heif"@].contains(lower_text(extension_or_empty(p))),
{
    reveal_strlit(".");
    reveal_strlit("jpg");
    reveal_strlit(".jpg");
    reveal_strlit("jpeg");
    reveal_strlit(".jpeg");
    reveal_strlit("png");
    reveal_strlit(".png");
    reveal_strlit("gif");
    reveal_strlit(".gif");
    reveal_strlit("bmp");
    reveal_strlit(".bmp");
    reveal_strlit("webp");
    reveal_strlit(".webp");
    reveal_strlit("tiff");
    reveal_strlit(".tiff");
    reveal_strlit("tif");
    reveal_strlit(".tif");
    reveal_strlit("heic");
    reveal_strlit(".heic");
    reveal_strlit("heif");
    reveal_strlit(".heif");
    let names = seq!["jpg"@, "jpeg"@, "png"@, "gif"@, "bmp"@, "webp"@, "tiff"@, "tif"@, "heic"@, "heif"@];
    assert forall|i: int| 0 <= i < image_extensions().len() implies #[trigger] image_extensions()[i] == "."@ + names[i] by {
        if i == 0 {
            assert(image_extensions()[0] =~= "."@ + "jpg"@);
        } else if i == 1 {
            assert(image_extensions()[1] =~= "."@ + "jpeg"@);
        } else if i == 2 {
            assert(image_extensions()[2] =~= "."@ + "png"@);
        } else if i == 3 {
            assert(image_extensions()[3] =~= "."@ + "gif"@);
        } else if i == 4 {
            assert(image_extensions()[4] =~= "."@ + "bmp"@);
        } else if i == 5 {
            assert(image_extensions()[5] =~= "."@ + "webp"@);
        } else if i == 6 {
            assert(image_extensions()[6] =~= "."@ + "tiff"@);
        } else if i == 7 {
            assert(image_extensions()[7] =~= "."@ + "tif"@);
        } else if i == 8 {
            assert(image_extensions()[8] =~= "."@ + "heic"@);
        } else if i == 9 {
            assert(image_extensions()[9] =~= "."@ + "heif"@);
        }
    }
    lemma_dotted_in(image_extensions(), names, lower_text(extension_or_empty(p)));
}

/// A file is a video (compared by sampled frames) exactly when its extension, in lower case, is one of
/// mp4, mkv, avi, mov, wmv, flv, webm, m4v, mpg, mpeg, ts, mts, m2ts.
pub proof fn law_video_extensions(p: Seq<char>)
    ensures
        video_extensions().contains(dotted_extension(p)) <==> seq!["mp4"@, "mkv"@, "avi"@, "mov"@, "wmv"@, "flv"@, "webm"@, "m4v"@, "mpg"@, "mpeg"@, "ts"@, "mts"@, "m2ts"@].contains(lower_text(extension_or_empty(p))),
{
    reveal_strlit(".");
    reveal_strlit("mp4");
    reveal_strlit(".mp4");
    reveal_strlit("mkv");
    reveal_strlit(".mkv");
    reveal_strlit("avi");
    reveal_strlit(".avi");
    reveal_strlit("mov");
    reveal_strlit(".mov");
    reveal_strlit("wmv");
    reveal_strlit(".wmv");
    reveal_strlit("flv");
    reveal_strlit(".flv");
    reveal_strlit("webm");
    reveal_strlit(".webm");
    reveal_strlit("m4v");
    reveal_strlit(".m4v");
    reveal_strlit("mpg");
    reveal_strlit(".mpg");
    reveal_strlit("mpeg");
    reveal_strlit(".mpeg");
    reveal_strlit("ts");
    reveal_strlit(".ts");
    reveal_strlit("mts");
    reveal_strlit(".mts");
    reveal_strlit("m2ts");
    reveal_strlit(".m2ts");
    let names = seq!["mp4"@, "mkv"@, "avi"@, "mov"@, "wmv"@, "flv"@, "webm"@, "m4v"@, "mpg"@, "mpeg"@, "ts"@, "mts"@, "m2ts"@];
    assert forall|i: int| 0 <= i < video_extensions().len() implies #[trigger] video_extensions()[i] == "."@ + names[i] by {
        if i == 0 {
            assert(video_extensions()[0] =~= "."@ + "mp4"@);
        } else if i == 1 {
            assert(video_extensions()[1] =~= "."@ + "mkv"@);
        } else if i == 2 {
            assert(video_extensions()[2] =~= "."@ + "avi"@);
        } else if i == 3 {
            assert(video_extensions()[3] =~= "."@ + "mov"@);
        } else if i == 4 {
            assert(video_extensions()[4] =~= "."@ + "wmv"@);
        } else if i == 5 {
            assert(video_extensions()[5] =~= "."@ + "flv"@);
        } else if i == 6 {
            assert(video_extensions()[6] =~= "."@ + "webm"@);
        } else if i == 7 {
            assert(video_extensions()[7] =~= "."@ + "m4v"@);
        } else if i == 8 {
            assert(video_extensions()[8] =~= "."@ + "mpg"@);
        } else if i == 9 {
            assert(video_extensions()[9] =~= "."@ + "mpeg"@);
        } else if i == 10 {
            assert(video_extensions()[10] =~= "."@ + "ts"@);
        } else if i == 11 {
            assert(video_extensions()[11] =~= "."@ + "mts"@);
        } else if i == 12 {
            assert(video_extensions()[12] =~= "."@ + "m2ts"@);
        }
    }
    lemma_dotted_in(video_extensions(), names, lower_text(extension_or_empty(p)));
}

/// A file is an archive (compared by members) exactly when its extension, in lower case, is one of
/// zip, 7z, rar.
pub proof fn law_archive_extensions(p: Seq<char>)
    ensures
        archive_extensions().contains(dotted_extension(p)) <==> seq!["zip"@, "7z"@, "rar"@].contains(lower_text(extension_or_empty(p))),
{
    reveal_strlit(".");
    reveal_strlit("zip");
    reveal_strlit(".zip");
    reveal_strlit("7z");
    reveal_strlit(".7z");
    reveal_strlit("rar");
    reveal_strlit(".rar");
    let names = seq!["zip"@, "7z"@, "rar"@];
    assert forall|i: int| 0 <= i < archive_extensions().len() implies #[trigger] archive_extensions()[i] == "."@ + names[i] by {
        if i == 0 {
            assert(archive_extensions()[0] =~= "."@ + "zip"@);
        } else if i == 1 {
            assert(archive_extensions()[1] =~= "."@ + "7z"@);
        } else if i == 2 {
            assert(archive_extensions()[2] =~= "."@ + "rar"@);
        }
    }
    lemma_dotted_in(archive_extensions(), names, lower_text(extension_or_empty(p)));
}

/// A file is a temporary or partial file, which a scan ignores exactly when its extension, in lower case, is one of
/// tmp, temp, part.
pub proof fn law_ignored_extensions(p: Seq<char>)
    ensures
        ignore_extensions().contains(dotted_extension(p)) <==> seq!["tmp"@, "temp"@, "part"@].contains(lower_text(extension_or_empty(p))),
{
    reveal_strlit(".");
    reveal_strlit("tmp");
    reveal_strlit(".tmp");
    reveal_strlit("temp");
    reveal_strlit(".temp");
    reveal_strlit("part");
    reveal_strlit(".part");
    let names = seq!["tmp"@, "temp"@, "part"@];
    assert forall|i: int| 0 <= i < ignore_extensions().len() implies #[trigger] ignore_extensions()[i] == "."@ + names[i] by {
        if i == 0 {
            assert(ignore_extensions()[0] =~= "."@ + "tmp"@);
        } else if i == 1 {
            assert(ignore_extensions()[1] =~= "."@ + "temp"@);
        } else if i == 2 {
            assert(ignore_extensions()[2] =~= "."@ + "part"@);
        }
    }
    lemma_dotted_in(ignore_extensions(), names, lower_text(extension_or_empty(p)));
}

/// A file is ignored outright exactly when its name is one of the system files
/// .DS_Store, .Spotlight-V100, .Trashes, .fseventsd, Thumbs.db, desktop.ini, or
/// its extension, in lower case, is one of tmp, temp, part.
pub proof fn law_ignored_builtin(p: Seq<char>)
    ensures
        ignored_builtin(p) <==> seq![".DS_Store"@, ".Spotlight-V100"@, ".Trashes"@, ".fseventsd"@, "Thumbs.db"@,
            "desktop.ini"@].contains(file_name_or_empty(p)) || seq!["tmp"@, "temp"@, "part"@].contains(
            lower_text(extension_or_empty(p))),
{
    law_ignored_extensions(p);
}

} // verus!
