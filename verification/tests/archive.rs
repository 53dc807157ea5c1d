use filescope::archive::{base_name, default_archive_name, Compress, Format};

#[test]
fn recognises_archive_formats() {
    assert_eq!(Format::from_name("photos.zip"), Some(Format::Zip));
    assert_eq!(Format::from_name("src.tar"), Some(Format::Tar));
    assert_eq!(Format::from_name("src.tar.gz"), Some(Format::Tar));
    assert_eq!(Format::from_name("src.tar.bz2"), Some(Format::Tar));
    assert_eq!(Format::from_name("src.tar.xz"), Some(Format::Tar));
    assert_eq!(Format::from_name("src.tgz"), Some(Format::Tar));
    assert_eq!(Format::from_name("src.txz"), Some(Format::Tar));
    assert_eq!(Format::from_name("blob.7z"), Some(Format::SevenZip));
    assert_eq!(Format::from_name("old.rar"), Some(Format::Rar));
}

#[test]
fn is_case_insensitive_and_rejects_non_archives() {
    assert_eq!(Format::from_name("PHOTOS.ZIP"), Some(Format::Zip));
    assert_eq!(Format::from_name("Src.Tar.Gz"), Some(Format::Tar));
    assert_eq!(Format::from_name("notes.txt"), None);
    assert_eq!(Format::from_name("README"), None);
    // A bare .gz isn't a tar; we don't claim to extract it.
    assert_eq!(Format::from_name("data.gz"), None);
    // The extension must be an extension, not just a substring.
    assert_eq!(Format::from_name("ziphead"), None);
}

#[test]
fn base_name_strips_the_whole_archive_extension() {
    // The compound extension must go entirely — not leave "photos.tar".
    assert_eq!(base_name("photos.tar.gz"), "photos");
    assert_eq!(base_name("photos.tgz"), "photos");
    assert_eq!(base_name("photos.zip"), "photos");
    assert_eq!(base_name("blob.7z"), "blob");
    // Dots inside the name survive.
    assert_eq!(base_name("my.backup.2026.tar.xz"), "my.backup.2026");
    // Not an archive → unchanged.
    assert_eq!(base_name("notes.txt"), "notes.txt");
}

#[test]
fn suggests_an_archive_name_from_the_selection() {
    assert_eq!(default_archive_name(&["report.pdf".into()]), "report");
    assert_eq!(default_archive_name(&["Projects".into()]), "Projects");
    assert_eq!(default_archive_name(&["a.txt".into(), "b.txt".into()]), "Archive");
    assert_eq!(default_archive_name(&[]), "Archive");
}

#[test]
fn builds_extract_commands() {
    let a = "/tmp/x.tar.gz";
    let d = "/tmp/out";
    assert_eq!(Format::Tar.extract_argv(a, d), ["tar", "-xf", "/tmp/x.tar.gz", "-C", "/tmp/out"]);
    assert_eq!(
        Format::Zip.extract_argv("/tmp/x.zip", d),
        ["unzip", "-q", "/tmp/x.zip", "-d", "/tmp/out"]
    );
    // 7z takes its destination glued to -o.
    assert_eq!(
        Format::SevenZip.extract_argv("/tmp/x.7z", d),
        ["7z", "x", "-y", "-o/tmp/out", "/tmp/x.7z"]
    );
    assert_eq!(
        Format::Rar.extract_argv("/tmp/x.rar", d),
        ["unrar", "x", "-y", "/tmp/x.rar", "/tmp/out/"]
    );
}

#[test]
fn extract_tools_match_their_formats() {
    assert_eq!(Format::Tar.tool(), "tar");
    assert_eq!(Format::Zip.tool(), "unzip");
    assert_eq!(Format::SevenZip.tool(), "7z");
    assert_eq!(Format::Rar.tool(), "unrar");
}

#[test]
fn builds_compress_commands() {
    let items = vec!["a.txt".to_string(), "Docs".to_string()];
    assert_eq!(Compress::Zip.argv("out.zip", &items), ["zip", "-r", "-q", "out.zip", "a.txt", "Docs"]);
    assert_eq!(
        Compress::TarGz.argv("out.tar.gz", &items),
        ["tar", "-czf", "out.tar.gz", "a.txt", "Docs"]
    );
    assert_eq!(
        Compress::TarXz.argv("out.tar.xz", &items),
        ["tar", "-cJf", "out.tar.xz", "a.txt", "Docs"]
    );
}

#[test]
fn compress_extensions_and_tools() {
    assert_eq!(Compress::Zip.extension(), ".zip");
    assert_eq!(Compress::TarGz.extension(), ".tar.gz");
    assert_eq!(Compress::TarXz.extension(), ".tar.xz");
    assert_eq!(Compress::Zip.tool(), "zip");
    assert_eq!(Compress::TarGz.tool(), "tar");
}

#[test]
fn every_recognised_extension_and_longest_match_wins() {
    assert_eq!(Format::from_name("a.tar.zst"), Some(Format::Tar));
    assert_eq!(Format::from_name("a.tbz2"), Some(Format::Tar));
    assert_eq!(Format::from_name("a.tbz"), Some(Format::Tar));
    assert_eq!(base_name("a.tar.bz2"), "a");
    assert_eq!(base_name("a.tbz2"), "a");
    assert_eq!(Compress::TarXz.tool(), "tar");
}

#[test]
fn a_bare_extension_is_not_an_archive() {
    // The name must have something before the extension.
    assert_eq!(Format::from_name(".zip"), None);
    assert_eq!(base_name(".zip"), ".zip");
    assert_eq!(Format::from_name(""), None);
    assert_eq!(Format::from_name("x.zip"), Some(Format::Zip));
}

#[test]
fn case_does_not_change_the_format_or_the_base_name_cut() {
    assert_eq!(Format::from_name("Backup.TAR.XZ"), Format::from_name("backup.tar.xz"));
    assert_eq!(base_name("Backup.TAR.XZ"), "Backup");
    assert_eq!(base_name("été.ZIP"), "été");
}

#[test]
fn an_unknown_archive_extracts_into_a_name_of_its_own() {
    // Only a name that is an archive loses something.
    assert_eq!(base_name("photos.tar.gzip"), "photos.tar.gzip");
    assert_ne!(base_name("photos.rar"), "photos.rar");
}

#[test]
fn compress_argv_with_no_items_is_the_bare_command() {
    assert_eq!(Compress::Zip.argv("o.zip", &[]), ["zip", "-r", "-q", "o.zip"]);
}

#[test]
fn a_compressed_name_reads_back_as_its_stem() {
    for stem in ["report", "my.backup.2026", "a.tar", "x"] {
        for (c, f) in [(Compress::Zip, Format::Zip), (Compress::TarGz, Format::Tar), (Compress::TarXz, Format::Tar)] {
            let n = format!("{stem}{}", c.extension());
            assert_eq!(base_name(&n), stem);
            assert_eq!(Format::from_name(&n), Some(f));
        }
    }
}
