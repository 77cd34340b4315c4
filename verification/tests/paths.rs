use std::path::Path;

use ask::paths::{
    components, extension, file_name, join, normalize_relative_path, same_path, starts_with,
    strip_prefix, PathPart,
};
use ask::response_paths::{display_path_root, ResponsePathRoot, ResponsePathTranslator};

#[test]
fn normalize_relative_path_uses_forward_slashes() {
    let root = "/tmp/root";
    let candidate = "/tmp/root/src/nested/file.txt";

    let normalized =
        normalize_relative_path(root, candidate).expect("candidate under root should normalize");

    assert_eq!(normalized, "src/nested/file.txt");
}

const PATHS: [&str; 24] = [
    "",
    "/",
    "//",
    ".",
    "./",
    "..",
    "/..",
    "a",
    "a/",
    "/a",
    "a/b",
    "./a/b",
    "a/./b",
    "a//b",
    "/a/b/",
    "/a/./b/../c",
    "../a",
    "a/..",
    "/a/.",
    ".git",
    "/x/.git/modules/y",
    "/tmp/archive.tar.gz",
    "/tmp/name.",
    "/gr\u{fc}n/\u{e9}.md",
];

#[test]
fn components_are_those_of_the_standard_library() {
    for path in PATHS {
        let expected: Vec<PathPart> = Path::new(path)
            .components()
            .map(|component| match component {
                std::path::Component::RootDir => PathPart::Root,
                std::path::Component::CurDir => PathPart::Current,
                std::path::Component::ParentDir => PathPart::Parent,
                std::path::Component::Normal(name) => {
                    PathPart::Normal(name.to_string_lossy().into_owned())
                }
                std::path::Component::Prefix(_) => unreachable!(),
            })
            .collect();
        assert_eq!(components(path), expected, "{path:?}");
    }
}

#[test]
fn relations_are_those_of_the_standard_library() {
    for path in PATHS {
        let name = Path::new(path).file_name().map(|n| n.to_string_lossy().into_owned());
        assert_eq!(file_name(path), name, "{path:?}");
        let ext = Path::new(path).extension().map(|e| e.to_string_lossy().into_owned());
        assert_eq!(extension(path), ext, "{path:?}");
        for base in PATHS {
            assert_eq!(
                starts_with(path, base),
                Path::new(path).starts_with(base),
                "{path:?} {base:?}"
            );
            assert_eq!(same_path(path, base), Path::new(path) == Path::new(base));
            assert_eq!(
                join(base, path),
                Path::new(base).join(path).to_string_lossy(),
                "{base:?} {path:?}"
            );
            let rest = Path::new(path).strip_prefix(base).ok().map(|rest| {
                components(&rest.to_string_lossy())
            });
            assert_eq!(strip_prefix(path, base), rest, "{path:?} {base:?}");
        }
    }
}

#[test]
fn relative_paths_lead_down() {
    assert_eq!(normalize_relative_path("/r", "/r/a/../b"), None);
    assert_eq!(normalize_relative_path("/r", "/other/a"), None);
    assert_eq!(normalize_relative_path("/r", "/r"), Some(String::new()));
    assert_eq!(normalize_relative_path("/r/", "/r//a/./b"), Some("a/b".to_string()));
    assert_eq!(normalize_relative_path("", "./a"), Some("a".to_string()));
}

fn translator(
    resource_root: &str,
    data_root: &str,
    resource_display_root: &str,
    data_display_root: &str,
) -> ResponsePathTranslator {
    ResponsePathTranslator::new(vec![
        ResponsePathRoot {
            root: resource_root.to_string(),
            display_root: display_path_root(resource_display_root),
        },
        ResponsePathRoot {
            root: data_root.to_string(),
            display_root: display_path_root(data_display_root),
        },
    ])
}

const RESOURCES: &str = "/srv/ask/resources";
const DATA: &str = "/srv/ask/data";

#[test]
fn response_filepath_returns_resource_relative_path_for_matching_root() {
    let translator = translator(RESOURCES, DATA, RESOURCES, DATA);
    let stored = format!("{RESOURCES}/nested/notes.md");

    assert_eq!(
        translator.response_filepath(&stored),
        format!("{}/nested/notes.md", display_path_root(RESOURCES))
    );
}

#[test]
fn response_filepath_returns_data_relative_path_for_matching_root() {
    let translator = translator(RESOURCES, DATA, RESOURCES, DATA);
    let stored = format!("{DATA}/memory/daily.md");

    assert_eq!(
        translator.response_filepath(&stored),
        format!("{}/memory/daily.md", display_path_root(DATA))
    );
}

#[test]
fn response_filepath_uses_relative_resource_display_root() {
    let translator = translator(RESOURCES, DATA, ".", ".data");
    let stored = format!("{RESOURCES}/nested/notes.md");

    assert_eq!(translator.response_filepath(&stored), "./nested/notes.md");
}

#[test]
fn response_filepath_uses_windows_display_root() {
    let translator = translator(RESOURCES, DATA, r"C:\coding\ask\", ".data");
    let stored = format!("{RESOURCES}/nested/notes.md");

    assert_eq!(
        translator.response_filepath(&stored),
        "C:/coding/ask/nested/notes.md"
    );
}

#[test]
fn response_filepath_uses_relative_data_display_root() {
    let translator = translator(RESOURCES, DATA, ".", ".data");
    let stored = format!("{DATA}/memory/daily.md");

    assert_eq!(
        translator.response_filepath(&stored),
        ".data/memory/daily.md"
    );
}

#[test]
fn response_filepath_prefers_longest_matching_root() {
    let inner = format!("{DATA}/resources");
    let stored = format!("{inner}/nested/notes.md");
    for (first, second) in [(inner.as_str(), DATA), (DATA, inner.as_str())] {
        let translator = translator(first, second, first, second);

        assert_eq!(
            translator.response_filepath(&stored),
            format!("{}/nested/notes.md", display_path_root(&inner))
        );
    }
}

#[test]
fn response_filepath_leaves_path_outside_configured_roots_unchanged() {
    let translator = translator(RESOURCES, DATA, RESOURCES, DATA);
    let stored = "/srv/ask/outside/notes.md";

    assert_eq!(translator.response_filepath(stored), stored);
    assert_eq!(translator.response_filepath("/srv/ask/data2"), "/srv/ask/data2");
    assert_eq!(translator.response_filepath(DATA), DATA);
}

#[test]
fn display_roots_are_trimmed() {
    for (path, shown) in [
        ("", "."),
        ("/", "/"),
        ("//", "/"),
        ("C:\\", "C:/"),
        ("C:\\\\", "C:/"),
        ("\u{e9}:/", "\u{e9}:"),
        ("a/b///", "a/b"),
        ("a\\b", "a/b"),
    ] {
        assert_eq!(display_path_root(path), shown, "{path:?}");
    }
    let translator = translator("/r", "/d", "/", "C:\\");
    assert_eq!(translator.response_filepath("/r/x"), "/x");
    assert_eq!(translator.response_filepath("/d/x"), "C:/x");
}
