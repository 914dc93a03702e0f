use dotman::error::DotError;
use dotman::key::{is_canonical_dir_exec, PathContext};
use dotman::order::text_lt_exec;
use dotman::path::normalize_path;
use dotman::store::{join_path_exec, FileMappings};
use dotman::workspace::{App, SourceKind};

const CWD: &str = "/home/u/proj";
const HOME: &str = "/home/u";

fn ctx() -> PathContext {
    PathContext::resolve(CWD.to_string(), Some(HOME.to_string())).unwrap()
}

fn new_fm() -> FileMappings {
    FileMappings::new("./test-workspace".to_string(), ctx())
}

fn pairs(fm: &FileMappings) -> Vec<(String, String)> {
    fm.as_map().clone()
}

#[test]
fn normalize_current_dir() {
    let actual = normalize_path("./Cargo.toml", CWD);
    let expect = format!("{}/Cargo.toml", CWD);
    assert_eq!(actual, expect);
}

#[test]
fn normalize_dotdot_with_root() {
    let actual = normalize_path("/foo/../foo", CWD);
    assert_eq!(actual, "/foo");
}

#[test]
fn normalize_with_no_curdir_and_rootdir() {
    let actual = normalize_path("foo/bar", CWD);
    let expect = normalize_path("./foo/bar", CWD);
    assert_eq!(actual, expect);
}

#[test]
fn contains_not_exists() {
    let fm = new_fm();
    assert!(!fm.contains("./Cargo.toml"));
}

#[test]
fn contains_exists() {
    let mut fm = new_fm();
    fm.add("./Cargo.toml", "DestCargo.toml").unwrap();
    assert!(fm.contains("./Cargo.toml"));
    assert!(fm.contains(&format!("{}/Cargo.toml", CWD)));
}

#[test]
fn remove_fail() {
    let mut fm = new_fm();
    assert!(fm.remove("./Cargo.toml").is_err());
}

#[test]
fn remove_success() {
    let mut fm = new_fm();
    fm.add("./Cargo.toml", "DestCargo.toml").unwrap();
    assert!(fm.remove("./Cargo.toml").is_ok());
}

#[test]
fn normalize_edge_cases() {
    assert_eq!(normalize_path("", CWD), "");
    assert_eq!(normalize_path("/", CWD), "/");
    assert_eq!(normalize_path("/..", CWD), "/");
    assert_eq!(normalize_path("../x", CWD), "x");
    assert_eq!(normalize_path(".", CWD), CWD);
    assert_eq!(normalize_path("a/./b//c/", CWD), "/home/u/proj/a/b/c");
    assert_eq!(normalize_path("a/../../b", CWD), "/home/u/b");
    assert_eq!(normalize_path("/a/b/../../..", CWD), "/");
}

#[test]
fn normalize_twice_changes_nothing() {
    for p in ["./Cargo.toml", "/foo/../foo", "a//b/./c/..", "", "/", "x"] {
        let once = normalize_path(p, CWD);
        assert_eq!(normalize_path(&once, CWD), once);
    }
}

#[test]
fn key_rewrites_home() {
    let c = ctx();
    assert_eq!(c.key("./Cargo.toml"), "~/proj/Cargo.toml");
    assert_eq!(c.key("/home/u"), "~/");
    assert_eq!(c.key("/home/u/.bashrc"), "~/.bashrc");
    assert_eq!(c.key("/home/user/.bashrc"), "/home/user/.bashrc");
    assert_eq!(c.key("/etc/hosts"), "/etc/hosts");
    assert_eq!(c.key("../x"), "x");
}

#[test]
fn key_same_for_equal_paths() {
    let c = ctx();
    assert_eq!(c.key("./foo"), c.key("/home/u/proj/foo"));
    assert_eq!(c.key("foo/../bar"), c.key("/home/u/proj/x/../bar"));
}

#[test]
fn key_home_round_trip() {
    let c = ctx();
    let k = c.key("./notes/todo.txt");
    assert!(k.starts_with("~/"));
    assert_eq!(format!("{}/{}", c.home(), &k[2..]), normalize_path("./notes/todo.txt", CWD));
}

#[test]
fn key_with_root_home() {
    let c = PathContext::resolve("/".to_string(), Some("/".to_string())).unwrap();
    assert_eq!(c.key("/etc/hosts"), "~/etc/hosts");
    assert_eq!(c.key("/"), "~/");
}

#[test]
fn context_rejects_bad_dirs() {
    assert_eq!(
        PathContext::resolve("relative".to_string(), Some(HOME.to_string())).err(),
        Some(DotError::Config)
    );
    assert_eq!(
        PathContext::resolve("/a/../b".to_string(), Some(HOME.to_string())).err(),
        Some(DotError::Config)
    );
    assert_eq!(PathContext::resolve(CWD.to_string(), None).err(), Some(DotError::Config));
    assert_eq!(
        PathContext::resolve(CWD.to_string(), Some("home".to_string())).err(),
        Some(DotError::Config)
    );
    let c = PathContext::resolve(CWD.to_string(), Some("/home/u/".to_string())).unwrap();
    assert_eq!(c.home(), "/home/u");
    assert_eq!(c.cwd(), CWD);
}

#[test]
fn canonical_dir_check() {
    assert!(is_canonical_dir_exec("/"));
    assert!(is_canonical_dir_exec("/home/u"));
    assert!(!is_canonical_dir_exec("/home/u/"));
    assert!(!is_canonical_dir_exec("/home//u"));
    assert!(!is_canonical_dir_exec("/home/./u"));
    assert!(!is_canonical_dir_exec("home/u"));
    assert!(!is_canonical_dir_exec(""));
}

#[test]
fn text_order() {
    assert!(text_lt_exec("a", "b"));
    assert!(text_lt_exec("ab", "abc"));
    assert!(!text_lt_exec("abc", "ab"));
    assert!(!text_lt_exec("x", "x"));
    assert!(text_lt_exec("", "a"));
    assert!(text_lt_exec("/etc", "~/a"));
}

#[test]
fn add_twice_is_duplicate() {
    let mut fm = new_fm();
    fm.add("./Cargo.toml", "DestCargo.toml").unwrap();
    let before = pairs(&fm);
    assert_eq!(fm.add("/home/u/proj/Cargo.toml", "Other.toml"), Err(DotError::DuplicateKey));
    assert_eq!(pairs(&fm), before);
}

#[test]
fn remove_then_lookup() {
    let mut fm = new_fm();
    fm.add("./Cargo.toml", "DestCargo.toml").unwrap();
    fm.remove("/home/u/proj/Cargo.toml").unwrap();
    assert!(!fm.contains("./Cargo.toml"));
    assert_eq!(fm.remove("./Cargo.toml"), Err(DotError::NotFound));
    assert!(fm.as_map().is_empty());
}

#[test]
fn entries_kept_in_key_order() {
    let mut fm = new_fm();
    fm.add("/etc/zz", "zz").unwrap();
    fm.add("./b", "b").unwrap();
    fm.add("/etc/aa", "aa").unwrap();
    fm.add("./a", "a").unwrap();
    let keys: Vec<String> = fm.as_map().iter().map(|e| e.0.clone()).collect();
    assert_eq!(keys, vec!["/etc/aa", "/etc/zz", "~/proj/a", "~/proj/b"]);
}

#[test]
fn get_joins_workspace() {
    let mut fm = FileMappings::new("/home/u/.dotfiles".to_string(), ctx());
    fm.add("./Cargo.toml", "sub/DestCargo.toml").unwrap();
    assert_eq!(fm.get("Cargo.toml").unwrap(), "/home/u/.dotfiles/sub/DestCargo.toml");
    assert_eq!(fm.get("./Other.toml"), Err(DotError::NotFound));
}

#[test]
fn join_paths() {
    assert_eq!(join_path_exec("/a", "b"), "/a/b");
    assert_eq!(join_path_exec("/a/", "b"), "/a/b");
    assert_eq!(join_path_exec("", "b"), "b");
    assert_eq!(join_path_exec("/a", "/b"), "/b");
}

#[test]
fn save_of_empty_table() {
    assert_eq!(new_fm().save_entries(), Ok("{}".to_string()));
}

#[test]
fn save_then_load() {
    let mut fm = new_fm();
    fm.add("./Cargo.toml", "DestCargo.toml").unwrap();
    fm.add("/etc/hosts", "etc/hosts").unwrap();
    fm.add("/home/u/.vimrc", "vimrc").unwrap();
    let text = fm.save_entries().unwrap();
    assert!(text.contains("\n"));
    let back = FileMappings::load_entries("./test-workspace".to_string(), &text, ctx()).unwrap();
    assert_eq!(pairs(&back), pairs(&fm));
    assert_eq!(back.save_entries().unwrap(), text);
}

#[test]
fn saved_text_is_pretty_object() {
    let mut fm = new_fm();
    fm.add("./Cargo.toml", "DestCargo.toml").unwrap();
    assert_eq!(fm.save_entries().unwrap(), "{\n  \"~/proj/Cargo.toml\": \"DestCargo.toml\"\n}");
}

#[test]
fn load_reads_pairs() {
    let text = "{\"/etc/hosts\": \"hosts\", \"~/a\": \"a\"}";
    let fm = FileMappings::load_entries("/w".to_string(), text, ctx()).unwrap();
    assert_eq!(
        pairs(&fm),
        vec![
            ("/etc/hosts".to_string(), "hosts".to_string()),
            ("~/a".to_string(), "a".to_string())
        ]
    );
    assert!(fm.contains("/home/u/a"));
}

#[test]
fn load_malformed_is_parse_error() {
    assert_eq!(
        FileMappings::load_entries("/w".to_string(), "[1, 2]", ctx()).err().map(|e| e),
        Some(DotError::Parse)
    );
    assert_eq!(
        FileMappings::load_entries("/w".to_string(), "{\"a\": ", ctx()).err(),
        Some(DotError::Parse)
    );
}

#[test]
fn from_pairs_later_wins() {
    let fm = FileMappings::from_pairs(
        "/w".to_string(),
        vec![
            ("b".to_string(), "1".to_string()),
            ("a".to_string(), "2".to_string()),
            ("b".to_string(), "3".to_string()),
        ],
        ctx(),
    );
    assert_eq!(
        pairs(&fm),
        vec![("a".to_string(), "2".to_string()), ("b".to_string(), "3".to_string())]
    );
}

#[test]
fn app_paths_and_empty_table() {
    let app = App::new(ctx(), None).unwrap();
    assert_eq!(app.workspace(), "/home/u/.dotfiles");
    assert_eq!(app.file_mappings_path(), "/home/u/.dotfiles/.file_mappings.json");
    assert!(app.entries().is_empty());
    assert_eq!(App::new(ctx(), Some("not json")).err(), Some(DotError::Parse));
}

#[test]
fn link_on_directory_is_refused() {
    let mut app = App::new(ctx(), None).unwrap();
    app.register_link("./a", "a").unwrap();
    let before = app.entries().clone();
    assert_eq!(app.prepare_link(SourceKind::Directory, "d"), Err(DotError::InvalidSource));
    assert_eq!(app.prepare_link(SourceKind::Symlink, "d"), Err(DotError::InvalidSource));
    assert_eq!(app.prepare_link(SourceKind::Missing, "d"), Err(DotError::InvalidSource));
    assert_eq!(app.entries(), &before);
    assert_eq!(
        app.prepare_link(SourceKind::RegularFile, "d/f").unwrap(),
        "/home/u/.dotfiles/d/f"
    );
}

#[test]
fn link_and_unlink_steps() {
    let mut app = App::new(ctx(), None).unwrap();
    assert_eq!(app.prepare_unlink("./a", true), Err(DotError::NotManaged));
    assert_eq!(app.prepare_unlink("./a", false), Err(DotError::InvalidSource));
    app.register_link("./a", "a").unwrap();
    assert_eq!(app.register_link("a", "b"), Err(DotError::DuplicateKey));
    assert_eq!(app.prepare_unlink("/home/u/proj/a", true), Ok(()));
    app.finish_unlink("./a").unwrap();
    assert_eq!(app.finish_unlink("./a"), Err(DotError::NotFound));
    assert_eq!(app.restore(), Err(DotError::Unimplemented));
    assert_eq!(app.save().unwrap(), "{}");
}

#[test]
fn error_messages() {
    assert_eq!(DotError::DuplicateKey.message(), "entry already exists");
    assert_eq!(DotError::Unimplemented.message(), "not implemented");
    assert_eq!(DotError::Io.message(), "I/O failure");
    assert_eq!(DotError::Parse.message(), "malformed mapping table");
    assert_eq!(DotError::NotFound.message(), "entry does not exist");
    assert_eq!(DotError::NotManaged.message(), "file is not managed by this tool");
    assert_eq!(DotError::InvalidSource.message(), "invalid source file");
    assert_eq!(DotError::Config.message(), "cannot resolve the working or home directory");
}
