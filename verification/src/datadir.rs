//! Where the packaged desktop application keeps its files, and the database
//! address built from the database file's path.

use vstd::prelude::*;
use vstd::utf8::encode_utf8;
use crate::text::{chars_of, contains_text, push_str, replace, replace_all, string_from_chars};

verus! {

broadcast use vstd::string::group_string_axioms;

/// `percent_encoding::percent_encode_byte`: the three characters `%XX`, with the
/// byte's value in upper-case hexadecimal.
#[verifier::external_body]
fn percent_encode_byte(byte: u8) -> (r: &'static str)
    ensures
        r@ == percent_triplet(byte),
{
    percent_encoding::percent_encode_byte(byte)
}

/// The upper-case hexadecimal digit for `d` (below sixteen).
pub open spec fn hex_digit(d: int) -> char {
    if d < 10 { (('0' as int) + d) as char } else { (('A' as int) + d - 10) as char }
}

/// `%` followed by the two upper-case hexadecimal digits of `b`.
pub open spec fn percent_triplet(b: u8) -> Seq<char> {
    seq!['%', hex_digit(b as int / 16), hex_digit(b as int % 16)]
}

/// The bytes written as `%XX` in a database address besides those outside
/// ASCII: the control characters, space, and `" < > ` # ? { } % | ^`.
pub open spec fn in_path_encode_set(b: u8) -> bool {
    b < 0x20 || b == 0x7F || b == 0x20 || b == 0x22 || b == 0x3C || b == 0x3E || b == 0x60 || b == 0x23
        || b == 0x3F || b == 0x7B || b == 0x7D || b == 0x25 || b == 0x7C || b == 0x5E
}

/// How one byte of the path appears in the address.
pub open spec fn encoded_byte(b: u8) -> Seq<char> {
    if b >= 0x80 || in_path_encode_set(b) { percent_triplet(b) } else { seq![b as char] }
}

/// The percent-encoding of a byte sequence, byte by byte.
pub open spec fn percent_encoded(bytes: Seq<u8>) -> Seq<char>
    decreases bytes.len(),
{
    if bytes.len() == 0 {
        Seq::empty()
    } else {
        percent_encoded(bytes.drop_last()) + encoded_byte(bytes.last())
    }
}

/// The path with backslashes turned into slashes and a leading slash added when missing.
pub open spec fn url_path(path: Seq<char>) -> Seq<char> {
    let s = replace_all(path, seq!['\\'], seq!['/']);
    if s.len() > 0 && s[0] == '/' { s } else { seq!['/'] + s }
}

/// The SQLite address of the database file at `path`:
/// `sqlite://<percent-encoded path>?mode=rwc`.
pub open spec fn database_url_text(path: Seq<char>) -> Seq<char> {
    seq!['s', 'q', 'l', 'i', 't', 'e', ':', '/', '/'] + percent_encoded(encode_utf8(url_path(path)))
        + seq!['?', 'm', 'o', 'd', 'e', '=', 'r', 'w', 'c']
}

/// The files of the packaged application, all under its per-user local data directory.
#[derive(Debug, Clone)]
pub struct AppPaths {
    pub data_dir: String,
    pub config_path: String,
    pub db_path: String,
    pub logs_dir: String,
}

impl AppPaths {
    /// The SQLite address of the application's database.
    pub fn database_url(&self) -> (r: String)
        ensures
            r@ == database_url_text(self.db_path@),
    {
        database_url_from_path(self.db_path.as_str())
    }
}

/// `directories::ProjectDirs::from("", "", "rsahp")` and its local data
/// directory: the per-user, non-roaming directory the platform keeps
/// application data in, with the application's own folder `rsahp` under it
/// (on Linux `$XDG_DATA_HOME/rsahp` or `~/.local/share/rsahp`, on macOS
/// `~/Library/Application Support/rsahp`, on Windows
/// `{LocalAppData}\rsahp\data`); `None` when no home directory can be found.
/// Which directory comes back depends on the environment; what holds of every
/// outcome is that its path holds the application's folder name `rsahp`.
#[verifier::external_body]
fn local_data_dir() -> (r: Option<String>)
    ensures
        r matches Some(d) ==> contains_text(d@, "rsahp"@),
{
    match directories::ProjectDirs::from("", "", "rsahp") {
        Some(dirs) => Some(dirs.data_local_dir().to_string_lossy().into_owned()),
        None => None,
    }
}

/// `name` inside the directory `dir`: joined with a `/` unless `dir` already
/// ends with a separator.
pub open spec fn joined(dir: Seq<char>, name: Seq<char>) -> Seq<char> {
    if dir.len() > 0 && (dir.last() == '/' || dir.last() == '\\') { dir + name } else { dir + "/"@ + name }
}

/// The files of the application in the data directory `d`.
pub open spec fn paths_in(d: Seq<char>, p: AppPaths) -> bool {
    &&& p.data_dir@ == d
    &&& p.config_path@ == joined(d, "config.json"@)
    &&& p.db_path@ == joined(d, "rsahp.db"@)
    &&& p.logs_dir@ == joined(d, "logs"@)
}

fn join_path(dir: &str, name: &str) -> (r: String)
    ensures
        r@ == joined(dir@, name@),
{
    proof {
        reveal_strlit("/");
    }
    let cs = chars_of(dir);
    let mut v: Vec<char> = Vec::new();
    push_str(&mut v, dir);
    if !(cs.len() > 0 && (cs[cs.len() - 1] == '/' || cs[cs.len() - 1] == '\\')) {
        push_str(&mut v, "/");
    }
    push_str(&mut v, name);
    string_from_chars(v.as_slice())
}

/// The application's files in the data directory `data_dir`: the settings
/// file `config.json`, the database `rsahp.db` and the `logs` directory.
pub fn app_paths(data_dir: &str) -> (p: AppPaths)
    ensures
        paths_in(data_dir@, p),
{
    AppPaths {
        data_dir: data_dir.to_owned(),
        config_path: join_path(data_dir, "config.json"),
        db_path: join_path(data_dir, "rsahp.db"),
        logs_dir: join_path(data_dir, "logs"),
    }
}

/// The application's files in the current user's local data directory (a
/// path that holds the application's folder name `rsahp`); `None` when the
/// platform gives no such directory.
pub fn resolve() -> (r: Option<AppPaths>)
    ensures
        r matches Some(p) ==> contains_text(p.data_dir@, "rsahp"@) && paths_in(p.data_dir@, p),
{
    match local_data_dir() {
        Some(d) => Some(app_paths(d.as_str())),
        None => None,
    }
}

/// The SQLite address of the database file at `db_path`: backslashes become
/// slashes, a leading slash is added when missing, and the bytes outside ASCII,
/// the control characters, space and `" < > ` # ? { } % | ^` are written `%XX`.
pub fn database_url_from_path(db_path: &str) -> (r: String)
    ensures
        r@ == database_url_text(db_path@),
{
    proof {
        reveal_strlit("\\");
        reveal_strlit("/");
        assert("\\"@ =~= seq!['\\']);
        assert("/"@ =~= seq!['/']);
    }
    let replaced = replace(db_path, "\\", "/");
    let cs = chars_of(replaced.as_str());
    let mut p: Vec<char> = Vec::new();
    if cs.len() == 0 || cs[0] != '/' {
        p.push('/');
    }
    let mut i: usize = 0;
    while i < cs.len()
        invariant
            i <= cs@.len(),
            p@ == (if cs@.len() > 0 && cs@[0] == '/' { Seq::empty() } else { seq!['/'] }) + cs@.take(i as int),
        decreases cs@.len() - i,
    {
        p.push(cs[i]);
        proof {
            assert(cs@.take(i + 1) =~= cs@.take(i as int).push(cs@[i as int]));
        }
        i += 1;
    }
    proof {
        assert(cs@.take(cs@.len() as int) =~= cs@);
        assert(p@ =~= url_path(db_path@));
    }
    let path = string_from_chars(p.as_slice());
    let bytes = path.as_str().as_bytes();
    let mut out: Vec<char> = Vec::new();
    push_str(&mut out, "sqlite://");
    let ghost head = out@;
    let mut k: usize = 0;
    while k < bytes.len()
        invariant
            k <= bytes@.len(),
            bytes@ == encode_utf8(url_path(db_path@)),
            out@ == head + percent_encoded(bytes@.take(k as int)),
        decreases bytes@.len() - k,
    {
        let b = bytes[k];
        let ghost before = out@;
        if b >= 0x80 || b < 0x20 || b == 0x7F || b == 0x20 || b == 0x22 || b == 0x3C || b == 0x3E || b == 0x60
            || b == 0x23 || b == 0x3F || b == 0x7B || b == 0x7D || b == 0x25 || b == 0x7C || b == 0x5E {
            push_str(&mut out, percent_encode_byte(b));
        } else {
            out.push(b as char);
        }
        proof {
            assert(bytes@.take(k + 1).drop_last() =~= bytes@.take(k as int));
            assert(bytes@.take(k + 1).last() == b);
            assert(out@ =~= before + encoded_byte(b));
        }
        k += 1;
    }
    push_str(&mut out, "?mode=rwc");
    proof {
        reveal_strlit("sqlite://");
        reveal_strlit("?mode=rwc");
        assert(bytes@.take(bytes@.len() as int) =~= bytes@);
        assert(out@ =~= database_url_text(db_path@));
    }
    string_from_chars(out.as_slice())
}

} // verus!
