use mdbook_outline::static_files::{
    hex_prefix, short_digest, StaticFile, StaticFileError, StaticFiles,
};
use mdbook_outline::toc::RenderToc;

#[test]
fn rewrite_dir_success() {
    let render = RenderToc {
        no_section_label: true,
        rewrite_to_dir: vec!["index.html".to_owned(), "index.md".to_owned()],
    };
    assert_eq!(render.rewrite_directory_index("index.html"), "");

    assert_eq!(render.rewrite_directory_index("index.md"), "");

    assert_eq!(render.rewrite_directory_index("index.asp"), "index.asp");
}

#[test]
fn rewrite_keeps_the_directory() {
    let render = RenderToc { no_section_label: false, rewrite_to_dir: vec!["index.html".to_owned()] };
    assert_eq!(render.rewrite_directory_index("guide/index.html"), "guide/");
    assert_eq!(render.rewrite_directory_index("guide/intro.html"), "guide/intro.html");
}

#[test]
fn short_digest_is_the_start_of_sha256() {
    assert_eq!(short_digest(&b"abc".to_vec()), "ba7816bf");
    assert_eq!(short_digest(&Vec::new()), "e3b0c442");
}

fn filenames(files: &StaticFiles) -> Vec<String> {
    files
        .files_list()
        .iter()
        .map(|f| match f {
            StaticFile::Builtin { filename, .. } => filename.clone(),
            StaticFile::Additional { filename, .. } => filename.clone(),
        })
        .collect()
}

#[test]
fn hash_files_renames_builtin_files() {
    let mut files = StaticFiles::new();
    files.add_builtin("book.js", b"abc");
    files.add_builtin("notes.txt", b"abc");
    files.add_builtin("FontAwesome/fonts/fa.woff", b"abc");
    files.add_builtin("LICENSE", b"abc");
    files.add_builtin("css/general.css", b"");
    files.hash_files(&Vec::new()).unwrap();
    assert_eq!(
        filenames(&files),
        vec![
            "book-ba7816bf.js",
            "notes.txt",
            "FontAwesome/fonts/fa.woff",
            "LICENSE",
            "css/general-e3b0c442.css",
        ]
    );
    assert_eq!(
        files.hash_map(),
        &vec![
            ("book.js".to_string(), "book-ba7816bf.js".to_string()),
            ("css/general.css".to_string(), "css/general-e3b0c442.css".to_string()),
        ]
    );
}

#[test]
fn hash_files_reads_additional_content() {
    let mut files = StaticFiles::new();
    files.add_additional("theme/custom.css", "custom.css");
    files.add_additional("theme/notes.txt", "notes.txt");
    files.hash_files(&vec![Some(b"abc".to_vec()), Some(Vec::new())]).unwrap();
    assert_eq!(filenames(&files), vec!["custom-ba7816bf.css", "notes-e3b0c442.txt"]);
}

#[test]
fn hash_files_needs_additional_content() {
    let mut files = StaticFiles::new();
    files.add_additional("theme/custom.css", "custom.css");
    assert_eq!(
        files.hash_files(&vec![None]),
        Err(StaticFileError::Unreadable { filename: "custom.css".to_string() })
    );
}

#[test]
fn hex_prefix_takes_four_bytes() {
    assert_eq!(hex_prefix(&vec![0x00, 0x0f, 0xa0, 0xff, 0x12]), "000fa0ff");
}

#[test]
fn rewrite_ignores_trailing_and_repeated_separators() {
    let render = RenderToc { no_section_label: false, rewrite_to_dir: vec!["index.html".to_owned()] };
    assert_eq!(render.rewrite_directory_index("a/index.html/"), "a/");
    assert_eq!(render.rewrite_directory_index("a//index.html"), "a/");
    assert_eq!(render.rewrite_directory_index("/index.html"), "/");
    assert_eq!(render.rewrite_directory_index("index.html/"), "");
    assert_eq!(render.rewrite_directory_index("///"), "///");
    assert_eq!(render.rewrite_directory_index(""), "");
}

#[test]
fn repeated_name_keeps_one_renaming() {
    let mut files = StaticFiles::new();
    files.add_builtin("book.js", b"abc");
    files.add_builtin("book.js", b"");
    files.hash_files(&Vec::new()).unwrap();
    assert_eq!(filenames(&files), vec!["book-ba7816bf.js", "book-e3b0c442.js"]);
    assert_eq!(
        files.hash_map(),
        &vec![("book.js".to_string(), "book-e3b0c442.js".to_string())]
    );
}

#[test]
fn rewrite_reads_dot_components_as_path_does() {
    let render = RenderToc { no_section_label: false, rewrite_to_dir: vec!["foo.txt".to_owned(), "..".to_owned()] };
    assert_eq!(render.rewrite_directory_index("foo.txt/."), "");
    assert_eq!(render.rewrite_directory_index("a/./foo.txt"), "a/");
    assert_eq!(render.rewrite_directory_index("./foo.txt"), "./");
    assert_eq!(render.rewrite_directory_index("a/.."), "a/..");
    let empty = RenderToc { no_section_label: false, rewrite_to_dir: vec![String::new()] };
    assert_eq!(empty.rewrite_directory_index("a/.."), "a/../");
    assert_eq!(empty.rewrite_directory_index("a/b"), "a/b");
}
