//! Names and paths of the store's files.
//!
//! Data files are named `<n>_kvs.txt`; an index file's name ends with
//! `_index.txt`. Paths are joined as `std::path::PathBuf::push` joins a
//! relative name on Unix.
use vstd::prelude::*;
use crate::errors::KvsError;
use crate::file::ImmutableFile;

verus! {

/// The decimal digits of `n`, as `u64::to_string` writes them.
pub open spec fn decimal(n: nat) -> Seq<char>
    decreases n,
{
    if n < 10 {
        seq![(n + 48) as char]
    } else {
        decimal(n / 10).push(((n % 10) + 48) as char)
    }
}

/// `dir` and `name` joined as `PathBuf::push` joins a relative name on Unix:
/// with a `/` between them unless `dir` is empty or already ends with one.
pub open spec fn path_join(dir: Seq<char>, name: Seq<char>) -> Seq<char> {
    if dir.len() == 0 || dir.last() == '/' {
        dir + name
    } else {
        dir + seq!['/'] + name
    }
}

/// The suffix of a data file's name.
pub open spec fn data_suffix() -> Seq<char> {
    seq!['_', 'k', 'v', 's', '.', 't', 'x', 't']
}

/// The suffix of an index file's name.
pub open spec fn index_suffix() -> Seq<char> {
    seq!['_', 'i', 'n', 'd', 'e', 'x', '.', 't', 'x', 't']
}

/// The name of data file number `n`.
pub open spec fn data_file_name(n: nat) -> Seq<char> {
    decimal(n) + data_suffix()
}

/// The path of data file number `n` in `dir`.
pub open spec fn data_file_path(dir: Seq<char>, n: nat) -> Seq<char> {
    path_join(dir, data_file_name(n))
}

/// `s` ends with `suffix`.
pub open spec fn ends_with(s: Seq<char>, suffix: Seq<char>) -> bool {
    s.len() >= suffix.len() && s.subrange(s.len() - suffix.len(), s.len() as int) == suffix
}

/// The digit `d` as a one-character string.
fn digit_str(d: u64) -> (s: &'static str)
    requires
        d < 10,
    ensures
        s@ == seq![(d + 48) as char],
{
    proof {
        reveal_strlit("0");
        reveal_strlit("1");
        reveal_strlit("2");
        reveal_strlit("3");
        reveal_strlit("4");
        reveal_strlit("5");
        reveal_strlit("6");
        reveal_strlit("7");
        reveal_strlit("8");
        reveal_strlit("9");
    }
    if d == 0 {
        "0"
    } else if d == 1 {
        "1"
    } else if d == 2 {
        "2"
    } else if d == 3 {
        "3"
    } else if d == 4 {
        "4"
    } else if d == 5 {
        "5"
    } else if d == 6 {
        "6"
    } else if d == 7 {
        "7"
    } else if d == 8 {
        "8"
    } else {
        "9"
    }
}

/// The decimal digits of `n`, as `u64::to_string` writes them.
fn decimal_string(n: u64) -> (s: String)
    ensures
        s@ == decimal(n as nat),
    decreases n,
{
    if n < 10 {
        String::from_str(digit_str(n))
    } else {
        let mut s = decimal_string(n / 10);
        s.append(digit_str(n % 10));
        s
    }
}

/// `std::path::PathBuf::push` of a relative `name` onto `dir`, with both
/// paths held as strings.
#[verifier::external_body]
fn join_path(dir: &String, name: &String) -> (p: String)
    requires
        name@.len() > 0,
        name@[0] != '/',
    ensures
        p@ == path_join(dir@, name@),
{
    let mut path = std::path::PathBuf::from(dir.as_str());
    path.push(name.as_str());
    path.to_string_lossy().into_owned()
}

/// Whether `s` ends with `suffix`, compared character by character.
fn str_ends_with(s: &str, suffix: &str) -> (r: bool)
    ensures
        r == ends_with(s@, suffix@),
{
    let n = s.unicode_len();
    let m = suffix.unicode_len();
    if n < m {
        return false;
    }
    let mut i: usize = 0;
    while i < m
        invariant
            n == s@.len(),
            m == suffix@.len(),
            m <= n,
            0 <= i <= m,
            forall|j: int| 0 <= j < i ==> s@[n - m + j] == suffix@[j],
        decreases m - i,
    {
        if s.get_char(n - m + i) != suffix.get_char(i) {
            assert(s@.subrange(n - m, n as int)[i as int] != suffix@[i as int]);
            return false;
        }
        i = i + 1;
    }
    assert(s@.subrange(n - m, n as int) =~= suffix@);
    true
}

/// The name of a data file, `<num>_kvs.txt`.
pub fn data_file_name_of(num: u64) -> (name: String)
    ensures
        name@ == data_file_name(num as nat),
{
    let digits = decimal_string(num);
    let suffix = "_kvs.txt";
    proof {
        reveal_strlit("_kvs.txt");
        assert(suffix@ =~= data_suffix());
    }
    digits.concat(suffix)
}

/// The path of data file number `num` in `dir`.
pub fn data_file_path_of(dir: &String, num: u64) -> (p: String)
    ensures
        p@ == data_file_path(dir@, num as nat),
{
    let name = data_file_name_of(num);
    proof {
        reveal_with_fuel(decimal, 2);
        assert(decimal(num as nat).len() > 0);
        if num < 10 {
            assert(name@[0] == decimal(num as nat)[0]);
        } else {
            lemma_decimal_first_digit(num as nat);
            assert(name@[0] == decimal(num as nat)[0]);
        }
    }
    join_path(dir, &name)
}

/// The first character of a decimal number is a digit.
proof fn lemma_decimal_first_digit(n: nat)
    ensures
        decimal(n).len() > 0,
        '0' <= decimal(n)[0] <= '9',
    decreases n,
{
    if n >= 10 {
        lemma_decimal_first_digit(n / 10);
        assert(decimal(n)[0] == decimal(n / 10)[0]);
    }
}

/// An empty immutable file numbered `num` in `dir`.
pub fn new_tmp_file(dir: String, num: u64) -> (r: Result<ImmutableFile, KvsError>)
    ensures
        r matches Ok(f) && f@.path == data_file_path(dir@, num as nat) && f@.end == 0,
{
    let path = data_file_path_of(&dir, num);
    Ok(ImmutableFile { data_path: path, data_offset: 0 })
}

/// A directory entry whose name ends with `_kvs.txt` holds records.
pub fn illage_data_file(file_name: Option<&str>) -> (r: bool)
    ensures
        r == (file_name matches Some(n) && ends_with(n@, data_suffix())),
{
    match file_name {
        Some(n) => {
            let suffix = "_kvs.txt";
            proof {
                reveal_strlit("_kvs.txt");
                assert(suffix@ =~= data_suffix());
            }
            str_ends_with(n, suffix)
        },
        None => false,
    }
}

/// A directory entry whose name ends with `_index.txt` is an index file.
pub fn illage_data_index(file_name: Option<&str>) -> (r: bool)
    ensures
        r == (file_name matches Some(n) && ends_with(n@, index_suffix())),
{
    match file_name {
        Some(n) => {
            let suffix = "_index.txt";
            proof {
                reveal_strlit("_index.txt");
                assert(suffix@ =~= index_suffix());
            }
            str_ends_with(n, suffix)
        },
        None => false,
    }
}

} // verus!
