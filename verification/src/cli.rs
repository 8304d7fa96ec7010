//! The decisions of the command-line tool: reading its arguments, reading
//! answers to its questions, and finding the item that a command names.

use vstd::prelude::*;
use crate::bindings::{json_object_fields, json_string, json_string_value, uuid_parse, uuid_parsed};
use crate::compression::CompressionType;
use crate::meta::{RatMeta, RatMetaObject};
use crate::item::{first_with_id, first_with_name, position_of_id, position_of_name, FileItem};
use crate::text::{
    ascii_lowercase, chars_equal, chars_of, lowercase_chars, string_from_chars, trim_chars, trimmed,
};

verus! {

/// What went wrong with the command line.
#[derive(Clone, Copy, Debug, PartialEq, Eq, Structural)]
pub enum CliErrorKind {
    /// `add` has fewer than two arguments.
    AddUsage,
    /// `list` does not have exactly one argument.
    ListUsage,
    /// `extract` has fewer than three arguments.
    ExtractUsage,
    /// `remove` does not have exactly two arguments.
    RemoveUsage,
    /// The command is not known; the subject is the command.
    UnknownCommand,
    /// A flag is the last argument; the subject is the flag.
    MissingValue,
    /// A compression name is not `fast`, `best` or `default`; the subject is
    /// the name.
    InvalidCompression,
    /// A metadata assignment is not `name=value`; the subject is the
    /// assignment.
    InvalidMeta,
    /// A flag is not known; the subject is the flag.
    UnknownFlag,
    /// No item has the id or name given; the subject is what was given.
    ItemNotFound,
}

/// A command-line error: what went wrong, and the text it concerns (empty
/// for the usage errors).
#[derive(Debug)]
pub struct CliError {
    pub kind: CliErrorKind,
    pub subject: String,
}

/// The options of `add`: the compression asked for, the metadata
/// assignments in order, and whether questions are suppressed.
pub type AddOptionsView = (Option<CompressionType>, Seq<(Seq<char>, Seq<char>)>, bool);

/// The arguments of `add`.
#[derive(Debug)]
pub struct AddArgs {
    pub archive_path: String,
    pub file_path: String,
    pub compression: Option<CompressionType>,
    pub meta: Vec<(String, String)>,
    pub stfu: bool,
}

/// A command of the tool, with its arguments.
#[derive(Debug)]
pub enum Command {
    Help,
    Add(AddArgs),
    List { archive_path: String },
    Extract { archive_path: String, selector: String, destination: String, remove: bool },
    Remove { archive_path: String, selector: String },
}

/// The answer to "use the default compression?".
#[derive(Clone, Copy, Debug, PartialEq, Eq, Structural)]
pub enum DefaultChoice {
    /// Yes (or an empty answer).
    UseDefault,
    /// No: the user will name a compression.
    Choose,
    /// Not an answer: ask again.
    Retry,
}

// ---------------------------------------------------------------------------
// Words of the command line.
// ---------------------------------------------------------------------------

pub open spec fn word_compression_flag() -> Seq<char> {
    seq!['-', '-', 'c', 'o', 'm', 'p', 'r', 'e', 's', 's', 'i', 'o', 'n']
}

pub open spec fn word_meta_flag() -> Seq<char> {
    seq!['-', '-', 'm', 'e', 't', 'a']
}

pub open spec fn word_meta_prefix() -> Seq<char> {
    seq!['-', '-', 'm', 'e', 't', 'a', '=']
}

pub open spec fn word_stfu_flag() -> Seq<char> {
    seq!['-', '-', 's', 't', 'f', 'u']
}

pub open spec fn word_remove_flag() -> Seq<char> {
    seq!['-', '-', 'r', 'e', 'm', 'o', 'v', 'e']
}

pub open spec fn is_help_word(s: Seq<char>) -> bool {
    ||| s == seq!['h', 'e', 'l', 'p']
    ||| s == seq!['-', '-', 'h', 'e', 'l', 'p']
    ||| s == seq!['-', 'h', 'e', 'l', 'p']
    ||| s == seq!['-', 'h']
}

pub open spec fn word_add() -> Seq<char> {
    seq!['a', 'd', 'd']
}

pub open spec fn word_list() -> Seq<char> {
    seq!['l', 'i', 's', 't']
}

pub open spec fn word_extract() -> Seq<char> {
    seq!['e', 'x', 't', 'r', 'a', 'c', 't']
}

pub open spec fn word_remove() -> Seq<char> {
    seq!['r', 'e', 'm', 'o', 'v', 'e']
}

pub open spec fn is_yes(s: Seq<char>) -> bool {
    s == seq!['y', 'e', 's'] || s == seq!['y']
}

pub open spec fn is_no(s: Seq<char>) -> bool {
    s == seq!['n', 'o'] || s == seq!['n']
}

/// The views of a sequence of strings.
pub open spec fn string_views(v: Seq<String>) -> Seq<Seq<char>> {
    v.map_values(|s: String| s@)
}

/// The views of a sequence of string pairs.
pub open spec fn pair_views(v: Seq<(String, String)>) -> Seq<(Seq<char>, Seq<char>)> {
    v.map_values(|p: (String, String)| (p.0@, p.1@))
}

impl CliError {
    /// What went wrong, and the text it concerns.
    pub open spec fn describe(self) -> (CliErrorKind, Seq<char>) {
        (self.kind, self.subject@)
    }
}

impl AddArgs {
    /// The options of these arguments.
    pub open spec fn options(self) -> AddOptionsView {
        (self.compression, pair_views(self.meta@), self.stfu)
    }
}

// ---------------------------------------------------------------------------
// Metadata assignments.
// ---------------------------------------------------------------------------

/// The index of the first `c` in `s`.
pub open spec fn first_char_index(s: Seq<char>, c: char) -> Option<int>
    decreases s.len(),
{
    if s.len() == 0 {
        None
    } else if s[0] == c {
        Some(0)
    } else {
        match first_char_index(s.drop_first(), c) {
            Some(i) => Some(i + 1),
            None => None,
        }
    }
}

/// What `first_char_index` returns, described without recursion.
pub proof fn lemma_first_char_index(s: Seq<char>, c: char)
    ensures
        match first_char_index(s, c) {
            Some(i) => 0 <= i < s.len() && s[i] == c && forall|j: int| 0 <= j < i ==> #[trigger] s[j]
                != c,
            None => forall|j: int| 0 <= j < s.len() ==> #[trigger] s[j] != c,
        },
    decreases s.len(),
{
    if s.len() > 0 && s[0] != c {
        lemma_first_char_index(s.drop_first(), c);
        match first_char_index(s.drop_first(), c) {
            Some(i) => {
                assert(s[i + 1] == s.drop_first()[i]);
                assert forall|j: int| 0 <= j < i + 1 implies #[trigger] s[j] != c by {
                    if j > 0 {
                        assert(s[j] == s.drop_first()[j - 1]);
                    }
                }
            },
            None => {
                assert forall|j: int| 0 <= j < s.len() implies #[trigger] s[j] != c by {
                    if j > 0 {
                        assert(s[j] == s.drop_first()[j - 1]);
                    }
                }
            },
        }
    }
}

/// The name of a `name=value` assignment: the text before the first `=`
/// (all of it when there is none), without surrounding white space.
pub open spec fn meta_name(s: Seq<char>) -> Seq<char> {
    trimmed(
        match first_char_index(s, '=') {
            Some(k) => s.take(k),
            None => s,
        },
    )
}

/// The value of a `name=value` assignment: the text after the first `=`
/// (empty when there is none).
pub open spec fn meta_value(s: Seq<char>) -> Seq<char> {
    match first_char_index(s, '=') {
        Some(k) => s.skip(k + 1),
        None => seq![],
    }
}

/// The name and value of an assignment, or `None` when either is empty.
pub open spec fn spec_meta_assignment(s: Seq<char>) -> Option<(Seq<char>, Seq<char>)> {
    if meta_name(s).len() == 0 || meta_value(s).len() == 0 {
        None
    } else {
        Some((meta_name(s), meta_value(s)))
    }
}

/// A command-line error about `subject`.
fn cli_error(kind: CliErrorKind, subject: &str) -> (res: CliError)
    ensures
        res.kind == kind,
        res.subject@ == subject@,
{
    CliError { kind, subject: subject.to_owned() }
}

/// Whether `s` is the word `w`.
fn is_word(s: &str, w: &[char]) -> (res: bool)
    ensures
        res == (s@ == w@),
{
    let cs = chars_of(s);
    chars_equal(cs.as_slice(), w)
}

/// The characters of `s` from `lo` to `hi`.
fn chars_range(s: &[char], lo: usize, hi: usize) -> (res: Vec<char>)
    requires
        lo <= hi <= s@.len(),
    ensures
        res@ == s@.subrange(lo as int, hi as int),
{
    let mut res: Vec<char> = Vec::new();
    let mut k: usize = lo;
    while k < hi
        invariant
            lo <= k <= hi <= s@.len(),
            res@ =~= s@.subrange(lo as int, k as int),
        decreases hi - k,
    {
        res.push(s[k]);
        k = k + 1;
    }
    res
}

/// Splits a `name=value` assignment at its first `=`: the name without
/// surrounding white space, the value as it is.  `InvalidMeta` (about the
/// assignment) when the name or the value is empty.
pub fn parse_meta_assignment(assignment: &str) -> (res: Result<(String, String), CliError>)
    ensures
        match res {
            Ok((k, v)) => spec_meta_assignment(assignment@) == Some((k@, v@)),
            Err(e) => spec_meta_assignment(assignment@) is None && e.describe() == (
                CliErrorKind::InvalidMeta,
                assignment@,
            ),
        },
{
    let cs = chars_of(assignment);
    proof {
        lemma_first_char_index(cs@, '=');
    }
    let mut k: usize = 0;
    while k < cs.len() && cs[k] != '='
        invariant
            k <= cs@.len(),
            cs@ == assignment@,
            forall|j: int| 0 <= j < k ==> #[trigger] cs@[j] != '=',
            match first_char_index(cs@, '=') {
                Some(i) => 0 <= i < cs@.len() && cs@[i] == '=' && forall|j: int|
                    0 <= j < i ==> #[trigger] cs@[j] != '=',
                None => forall|j: int| 0 <= j < cs@.len() ==> #[trigger] cs@[j] != '=',
            },
        decreases cs@.len() - k,
    {
        k = k + 1;
    }
    let (name_part, value) = if k < cs.len() {
        assert(first_char_index(cs@, '=') == Some(k as int));
        (chars_range(cs.as_slice(), 0, k), chars_range(cs.as_slice(), k + 1, cs.len()))
    } else {
        assert(first_char_index(cs@, '=') is None);
        (chars_range(cs.as_slice(), 0, cs.len()), Vec::new())
    };
    assert(cs@.subrange(0, cs@.len() as int) =~= cs@);
    assert(cs@.subrange(0, k as int) =~= cs@.take(k as int));
    assert(k < cs@.len() ==> cs@.subrange(k + 1, cs@.len() as int) =~= cs@.skip(k + 1));
    let name = trim_chars(name_part.as_slice());
    if name.len() == 0 || value.len() == 0 {
        return Err(cli_error(CliErrorKind::InvalidMeta, assignment));
    }
    Ok((string_from_chars(name.as_slice()), string_from_chars(value.as_slice())))
}

// ---------------------------------------------------------------------------
// The arguments of `add`.
// ---------------------------------------------------------------------------

/// The options of `add` read from position `i` of its arguments on, after
/// those already read (`acc`): `--compression <name>`, `--meta <name=value>`,
/// `--meta=<name=value>` and `--stfu`, in any order and number.
pub open spec fn add_options_from(args: Seq<Seq<char>>, i: int, acc: AddOptionsView) -> Result<
    AddOptionsView,
    (CliErrorKind, Seq<char>),
>
    decreases args.len() - i,
{
    if i < 0 || i >= args.len() {
        Ok(acc)
    } else {
        let a = args[i];
        if a == word_compression_flag() {
            if i + 1 >= args.len() {
                Err((CliErrorKind::MissingValue, word_compression_flag()))
            } else {
                match CompressionType::spec_from_name(args[i + 1]) {
                    Some(c) => add_options_from(args, i + 2, (Some(c), acc.1, acc.2)),
                    None => Err((CliErrorKind::InvalidCompression, args[i + 1])),
                }
            }
        } else if a == word_meta_flag() {
            if i + 1 >= args.len() {
                Err((CliErrorKind::MissingValue, word_meta_flag()))
            } else {
                match spec_meta_assignment(args[i + 1]) {
                    Some(kv) => add_options_from(args, i + 2, (acc.0, acc.1.push(kv), acc.2)),
                    None => Err((CliErrorKind::InvalidMeta, args[i + 1])),
                }
            }
        } else if a == word_stfu_flag() {
            add_options_from(args, i + 1, (acc.0, acc.1, true))
        } else if a.len() >= 7 && a.take(7) == word_meta_prefix() {
            match spec_meta_assignment(a.skip(7)) {
                Some(kv) => add_options_from(args, i + 1, (acc.0, acc.1.push(kv), acc.2)),
                None => Err((CliErrorKind::InvalidMeta, a.skip(7))),
            }
        } else {
            Err((CliErrorKind::UnknownFlag, a))
        }
    }
}

/// The options of `add`, read after its two positional arguments.
pub open spec fn spec_add_options(args: Seq<Seq<char>>) -> Result<
    AddOptionsView,
    (CliErrorKind, Seq<char>),
> {
    add_options_from(args, 2, (None, seq![], false))
}

/// `--stfu` is neither a compression name nor a metadata assignment.
proof fn lemma_stfu_is_no_value()
    ensures
        CompressionType::spec_from_name(word_stfu_flag()) is None,
        spec_meta_assignment(word_stfu_flag()) is None,
{
    let w = word_stfu_flag();
    assert(ascii_lowercase(w).len() == 6);
    assert(ascii_lowercase(w) != crate::compression::fast_name());
    assert(ascii_lowercase(w) != crate::compression::best_name());
    assert(ascii_lowercase(w) != crate::compression::default_name());
    lemma_first_char_index(w, '=');
    assert(first_char_index(w, '=') is None) by {
        if let Some(k) = first_char_index(w, '=') {
            assert(w[k] == '=');
        }
    }
}

/// Reading the options of `add` from position `i` on: when it succeeds,
/// `--stfu` is set in the result exactly when it was set before or one of
/// the arguments from `i` on is `--stfu`, whatever the other options are
/// and wherever they stand.
pub proof fn law_stfu_flag(args: Seq<Seq<char>>, i: int, acc: AddOptionsView)
    requires
        0 <= i,
        add_options_from(args, i, acc) is Ok,
    ensures
        add_options_from(args, i, acc)->Ok_0.2 <==> (acc.2 || exists|j: int|
            i <= j < args.len() && #[trigger] args[j] == word_stfu_flag()),
    decreases args.len() - i,
{
    lemma_stfu_is_no_value();
    if i < args.len() {
        let a = args[i];
        if a == word_compression_flag() {
            let c = CompressionType::spec_from_name(args[i + 1])->0;
            assert(args[i + 1] != word_stfu_flag());
            law_stfu_flag(args, i + 2, (Some(c), acc.1, acc.2));
            assert(a != word_stfu_flag()) by {
                assert(a.len() != word_stfu_flag().len());
            }
        } else if a == word_meta_flag() {
            let kv = spec_meta_assignment(args[i + 1])->0;
            assert(args[i + 1] != word_stfu_flag());
            law_stfu_flag(args, i + 2, (acc.0, acc.1.push(kv), acc.2));
            assert(a != word_stfu_flag()) by {
                assert(a[2] != word_stfu_flag()[2]);
            }
        } else if a == word_stfu_flag() {
            law_stfu_flag(args, i + 1, (acc.0, acc.1, true));
        } else {
            let kv = spec_meta_assignment(a.skip(7))->0;
            law_stfu_flag(args, i + 1, (acc.0, acc.1.push(kv), acc.2));
        }
    }
}

/// The options of `add`, when they are read: `--stfu` is set exactly when
/// one of the arguments after the two paths is `--stfu`, whatever the other
/// options are and wherever they stand.
pub proof fn law_add_stfu(args: Seq<Seq<char>>)
    requires
        spec_add_options(args) is Ok,
    ensures
        spec_add_options(args)->Ok_0.2 <==> exists|j: int|
            2 <= j < args.len() && #[trigger] args[j] == word_stfu_flag(),
{
    law_stfu_flag(args, 2, (None, seq![], false));
}

/// The value after the flag at `*index`: the next argument, with `*index`
/// moved onto it.  `MissingValue` (about the flag) when there is none.
pub fn next_arg(args: &[String], index: &mut usize, flag: &str) -> (res: Result<String, CliError>)
    requires
        *old(index) < usize::MAX,
    ensures
        match res {
            Ok(v) => *old(index) + 1 < args@.len() && v@ == args@[*old(index) + 1]@ && *final(index)
                == *old(index) + 1,
            Err(e) => *old(index) + 1 >= args@.len() && e.describe() == (
                CliErrorKind::MissingValue,
                flag@,
            ) && *final(index) == *old(index),
        },
{
    let value_index = *index + 1;
    if value_index >= args.len() {
        return Err(cli_error(CliErrorKind::MissingValue, flag));
    }
    *index = value_index;
    Ok(args[value_index].clone())
}

/// The text of `s` after its first `n` characters.
fn chars_after(s: &str, n: usize) -> (res: String)
    requires
        n <= s@.len(),
    ensures
        res@ == s@.skip(n as int),
{
    let cs = chars_of(s);
    let rest = chars_range(cs.as_slice(), n, cs.len());
    assert(cs@.subrange(n as int, cs@.len() as int) =~= cs@.skip(n as int));
    string_from_chars(rest.as_slice())
}

/// Whether `s` starts with the characters of `p`.
fn starts_with(s: &str, p: &[char]) -> (res: bool)
    ensures
        res == (s@.len() >= p@.len() && s@.take(p@.len() as int) == p@),
{
    let cs = chars_of(s);
    if cs.len() < p.len() {
        return false;
    }
    let head = chars_range(cs.as_slice(), 0, p.len());
    assert(cs@.subrange(0, p@.len() as int) =~= cs@.take(p@.len() as int));
    chars_equal(head.as_slice(), p)
}

/// Reads the arguments of `add`: the archive path, the file path, then the
/// options.  `AddUsage` when there are fewer than two arguments; otherwise
/// the first error that the options hold.
pub fn parse_add_args(args: &[String]) -> (res: Result<AddArgs, CliError>)
    ensures
        match res {
            Ok(a) => {
                &&& args@.len() >= 2
                &&& a.archive_path@ == args@[0]@
                &&& a.file_path@ == args@[1]@
                &&& spec_add_options(string_views(args@)) == Ok::<
                    AddOptionsView,
                    (CliErrorKind, Seq<char>),
                >(a.options())
            },
            Err(e) => {
                ||| args@.len() < 2 && e.describe() == (CliErrorKind::AddUsage, Seq::<char>::empty())
                ||| args@.len() >= 2 && spec_add_options(string_views(args@)) == Err::<
                    AddOptionsView,
                    (CliErrorKind, Seq<char>),
                >(e.describe())
            },
        },
{
    if args.len() < 2 {
        proof {
            reveal_strlit("");
        }
        return Err(cli_error(CliErrorKind::AddUsage, ""));
    }
    let ghost views = string_views(args@);
    let compression_flag = ['-', '-', 'c', 'o', 'm', 'p', 'r', 'e', 's', 's', 'i', 'o', 'n'];
    let meta_flag = ['-', '-', 'm', 'e', 't', 'a'];
    let meta_prefix = ['-', '-', 'm', 'e', 't', 'a', '='];
    let stfu_flag = ['-', '-', 's', 't', 'f', 'u'];
    assert(compression_flag@ == word_compression_flag());
    assert(meta_flag@ == word_meta_flag());
    assert(meta_prefix@ == word_meta_prefix());
    assert(stfu_flag@ == word_stfu_flag());
    let mut compression: Option<CompressionType> = None;
    let mut meta: Vec<(String, String)> = Vec::new();
    let mut stfu = false;
    let mut i: usize = 2;
    assert(pair_views(meta@) =~= Seq::<(Seq<char>, Seq<char>)>::empty());
    while i < args.len()
        invariant
            2 <= i <= args@.len() + 1,
            views == string_views(args@),
            compression_flag@ == word_compression_flag(),
            meta_flag@ == word_meta_flag(),
            meta_prefix@ == word_meta_prefix(),
            stfu_flag@ == word_stfu_flag(),
            spec_add_options(views) == add_options_from(
                views,
                i as int,
                (compression, pair_views(meta@), stfu),
            ),
        decreases args@.len() + 1 - i,
    {
        let a: &str = args[i].as_str();
        assert(views[i as int] == a@);
        if is_word(a, compression_flag.as_slice()) {
            let value = match next_arg(args, &mut i, "--compression") {
                Ok(v) => v,
                Err(e) => {
                    proof {
                        reveal_strlit("--compression");
                        assert(e.describe() == (CliErrorKind::MissingValue, word_compression_flag()));
                        assert(a@ == word_compression_flag());
                    }
                    return Err(e);
                },
            };
            assert(views[i as int] == value@);
            match CompressionType::from_str(value.as_str()) {
                Some(c) => {
                    compression = Some(c);
                },
                None => {
                    return Err(CliError { kind: CliErrorKind::InvalidCompression, subject: value });
                },
            }
        } else if is_word(a, meta_flag.as_slice()) {
            let assignment = match next_arg(args, &mut i, "--meta") {
                Ok(v) => v,
                Err(e) => {
                    proof {
                        reveal_strlit("--meta");
                        assert(e.describe() == (CliErrorKind::MissingValue, word_meta_flag()));
                        assert(a@ == word_meta_flag());
                    }
                    return Err(e);
                },
            };
            assert(views[i as int] == assignment@);
            match parse_meta_assignment(assignment.as_str()) {
                Ok(kv) => {
                    let ghost before = meta@;
                    meta.push(kv);
                    assert(pair_views(meta@) =~= pair_views(before).push((kv.0@, kv.1@)));
                },
                Err(e) => return Err(e),
            }
        } else if is_word(a, stfu_flag.as_slice()) {
            stfu = true;
        } else if starts_with(a, meta_prefix.as_slice()) {
            let assignment = chars_after(a, 7);
            match parse_meta_assignment(assignment.as_str()) {
                Ok(kv) => {
                    let ghost before = meta@;
                    meta.push(kv);
                    assert(pair_views(meta@) =~= pair_views(before).push((kv.0@, kv.1@)));
                },
                Err(e) => return Err(e),
            }
        } else {
            return Err(CliError { kind: CliErrorKind::UnknownFlag, subject: args[i].clone() });
        }
        i = i + 1;
    }
    Ok(
        AddArgs {
            archive_path: args[0].clone(),
            file_path: args[1].clone(),
            compression,
            meta,
            stfu,
        },
    )
}

/// The name an added item is stored under: the file name of the path
/// added, or `untilted` when that name is not valid Unicode.
pub fn item_name(file_name: Option<&str>) -> (res: String)
    ensures
        res@ == match file_name {
            Some(s) => s@,
            None => "untilted"@,
        },
{
    match file_name {
        Some(s) => s.to_owned(),
        None => "untilted".to_owned(),
    }
}

/// The custom metadata fields that `--meta` assignments set, in order:
/// each name holds its value as a JSON string, and a later assignment to a
/// name replaces an earlier one.
pub open spec fn meta_fields(pairs: Seq<(Seq<char>, Seq<char>)>) -> Map<Seq<char>, serde_json::Value>
    decreases pairs.len(),
{
    if pairs.len() == 0 {
        Map::empty()
    } else {
        meta_fields(pairs.drop_last()).insert(pairs.last().0, json_string(pairs.last().1))
    }
}

/// The fields that `--meta` assignments set are exactly the names
/// assigned, and each holds, as a JSON string, the value of the last
/// assignment to its name.
pub proof fn law_meta_fields(pairs: Seq<(Seq<char>, Seq<char>)>)
    ensures
        forall|k: Seq<char>|
            #[trigger] meta_fields(pairs).dom().contains(k) <==> exists|i: int|
                0 <= i < pairs.len() && #[trigger] pairs[i].0 == k,
        forall|i: int|
            0 <= i < pairs.len() && (forall|j: int| i < j < pairs.len() ==> #[trigger] pairs[j].0
                != pairs[i].0) ==> meta_fields(pairs)[#[trigger] pairs[i].0] == json_string(
                pairs[i].1,
            ),
    decreases pairs.len(),
{
    if pairs.len() > 0 {
        let init = pairs.drop_last();
        let n = pairs.len() - 1;
        law_meta_fields(init);
        assert(meta_fields(pairs) == meta_fields(init).insert(pairs[n].0, json_string(pairs[n].1)));
        assert forall|k: Seq<char>|
            #[trigger] meta_fields(pairs).dom().contains(k) <==> exists|i: int|
                0 <= i < pairs.len() && #[trigger] pairs[i].0 == k by {
            if meta_fields(pairs).dom().contains(k) && k != pairs[n].0 {
                assert(meta_fields(init).dom().contains(k));
                let i = choose|i: int| 0 <= i < init.len() && #[trigger] init[i].0 == k;
                assert(pairs[i].0 == k);
            }
            if exists|i: int| 0 <= i < pairs.len() && #[trigger] pairs[i].0 == k {
                let i = choose|i: int| 0 <= i < pairs.len() && #[trigger] pairs[i].0 == k;
                if i < n {
                    assert(init[i].0 == k);
                }
            }
        }
        assert forall|i: int|
            0 <= i < pairs.len() && (forall|j: int| i < j < pairs.len() ==> #[trigger] pairs[j].0
                != pairs[i].0) implies meta_fields(pairs)[#[trigger] pairs[i].0] == json_string(
            pairs[i].1,
        ) by {
            if i < n {
                assert(pairs[n].0 != pairs[i].0);
                assert(init[i] == pairs[i]);
                assert forall|j: int| i < j < init.len() implies #[trigger] init[j].0 != init[i].0 by {
                    assert(init[j] == pairs[j]);
                }
            }
        }
    }
}

impl AddArgs {
    /// The metadata of the item being added: stamped with the current time,
    /// with a custom text field for each `--meta` assignment.
    pub fn metadata(&self) -> (res: RatMeta<RatMetaObject>)
        ensures
            json_object_fields(res.custom) == meta_fields(pair_views(self.meta@)),
    {
        let mut m = RatMeta::new_object();
        let ghost pairs = pair_views(self.meta@);
        let mut i: usize = 0;
        while i < self.meta.len()
            invariant
                i <= self.meta@.len(),
                pairs == pair_views(self.meta@),
                json_object_fields(m.custom) == meta_fields(pairs.take(i as int)),
            decreases self.meta@.len() - i,
        {
            let key = self.meta[i].0.clone();
            let value = json_string_value(self.meta[i].1.clone());
            m.insert_custom(key, value);
            assert(pairs.take(i + 1).drop_last() =~= pairs.take(i as int));
            i = i + 1;
        }
        assert(pairs.take(i as int) =~= pairs);
        m
    }

    /// Whether a missing archive may be created: always under `--stfu`
    /// (no question is asked), otherwise when the user agreed.
    pub fn may_create(&self, agreed: bool) -> (res: bool)
        ensures
            res == (self.stfu || agreed),
    {
        self.stfu || agreed
    }

    /// The compression a missing archive is created with: the one asked for
    /// on the command line, else under `--stfu` the default (`fast`), else
    /// the one the user chose when asked.
    pub fn creation_compression(&self, chosen: CompressionType) -> (res: CompressionType)
        ensures
            res == match self.compression {
                Some(c) => c,
                None => if self.stfu {
                    CompressionType::Fast
                } else {
                    chosen
                },
            },
    {
        let fallback = if self.stfu {
            CompressionType::default()
        } else {
            chosen
        };
        self.compression_or(fallback)
    }

    /// The compression to add with: the one asked for on the command line,
    /// else `fallback` (the archive's own when it exists, else the default
    /// or the one the user chose).
    pub fn compression_or(&self, fallback: CompressionType) -> (res: CompressionType)
        ensures
            res == match self.compression {
                Some(c) => c,
                None => fallback,
            },
    {
        match self.compression {
            Some(c) => c,
            None => fallback,
        }
    }
}


// ---------------------------------------------------------------------------
// The command.
// ---------------------------------------------------------------------------

/// Whether `words` holds `w` at some position from `from` on.
pub open spec fn has_word_from(words: Seq<Seq<char>>, from: int, w: Seq<char>) -> bool {
    exists|j: int| from <= j < words.len() && #[trigger] words[j] == w
}

/// Whether one of `args` from position `from` on is the word `w`.
fn any_word_from(args: &[String], from: usize, w: &[char]) -> (res: bool)
    ensures
        res == has_word_from(string_views(args@), from as int, w@),
{
    let ghost views = string_views(args@);
    let mut j: usize = from;
    while j < args.len()
        invariant
            from <= j || args@.len() <= j,
            views == string_views(args@),
            forall|k: int| from <= k < j && k < args@.len() ==> #[trigger] views[k] != w@,
        decreases args@.len() - j,
    {
        assert(views[j as int] == args@[j as int]@);
        if is_word(args[j].as_str(), w) {
            return true;
        }
        j = j + 1;
    }
    proof {
        if has_word_from(views, from as int, w@) {
            let k = choose|k: int| from <= k < views.len() && #[trigger] views[k] == w@;
            assert(views[k] != w@);
        }
    }
    false
}

/// Reads the command line (the arguments after the program name).  No
/// argument, or a first argument `help`, `--help`, `-help` or `-h`, asks for
/// help.  Otherwise the first argument names the command: `add` (see
/// `parse_add_args`), `list <archive>`, `extract <archive> <id-or-name>
/// <destination> [--remove]` (`--remove` anywhere after the destination) or
/// `remove <archive> <id-or-name>`.
pub fn parse_command(args: &[String]) -> (res: Result<Command, CliError>)
    ensures
        ({
            let v = string_views(args@);
            let help = v.len() == 0 || is_help_word(v[0]);
            match res {
                Ok(Command::Help) => help,
                Ok(Command::Add(a)) => {
                    &&& !help && v[0] == word_add() && v.len() >= 3
                    &&& a.archive_path@ == v[1] && a.file_path@ == v[2]
                    &&& spec_add_options(v.skip(1)) == Ok::<
                        AddOptionsView,
                        (CliErrorKind, Seq<char>),
                    >(a.options())
                },
                Ok(Command::List { archive_path }) => {
                    &&& !help && v[0] == word_list() && v.len() == 2
                    &&& archive_path@ == v[1]
                },
                Ok(Command::Extract { archive_path, selector, destination, remove }) => {
                    &&& !help && v[0] == word_extract() && v.len() >= 4
                    &&& archive_path@ == v[1] && selector@ == v[2] && destination@ == v[3]
                    &&& remove == has_word_from(v, 4, word_remove_flag())
                },
                Ok(Command::Remove { archive_path, selector }) => {
                    &&& !help && v[0] == word_remove() && v.len() == 3
                    &&& archive_path@ == v[1] && selector@ == v[2]
                },
                Err(e) => !help && {
                    ||| v[0] == word_add() && v.len() < 3 && e.describe() == (
                        CliErrorKind::AddUsage,
                        Seq::<char>::empty(),
                    )
                    ||| v[0] == word_add() && v.len() >= 3 && spec_add_options(v.skip(1)) == Err::<
                        AddOptionsView,
                        (CliErrorKind, Seq<char>),
                    >(e.describe())
                    ||| v[0] == word_list() && v.len() != 2 && e.describe() == (
                        CliErrorKind::ListUsage,
                        Seq::<char>::empty(),
                    )
                    ||| v[0] == word_extract() && v.len() < 4 && e.describe() == (
                        CliErrorKind::ExtractUsage,
                        Seq::<char>::empty(),
                    )
                    ||| v[0] == word_remove() && v.len() != 3 && e.describe() == (
                        CliErrorKind::RemoveUsage,
                        Seq::<char>::empty(),
                    )
                    ||| v[0] != word_add() && v[0] != word_list() && v[0] != word_extract() && v[0]
                        != word_remove() && e.describe() == (CliErrorKind::UnknownCommand, v[0])
                },
            }
        }),
{
    let ghost v = string_views(args@);
    if args.len() == 0 {
        return Ok(Command::Help);
    }
    let first: &str = args[0].as_str();
    assert(v[0] == first@);
    let w_help = ['h', 'e', 'l', 'p'];
    let w_dhelp = ['-', '-', 'h', 'e', 'l', 'p'];
    let w_shelp = ['-', 'h', 'e', 'l', 'p'];
    let w_h = ['-', 'h'];
    if is_word(first, w_help.as_slice()) || is_word(first, w_dhelp.as_slice()) || is_word(
        first,
        w_shelp.as_slice(),
    ) || is_word(first, w_h.as_slice()) {
        assert(w_help@ == seq!['h', 'e', 'l', 'p']);
        assert(w_dhelp@ == seq!['-', '-', 'h', 'e', 'l', 'p']);
        assert(w_shelp@ == seq!['-', 'h', 'e', 'l', 'p']);
        assert(w_h@ == seq!['-', 'h']);
        return Ok(Command::Help);
    }
    assert(w_help@ == seq!['h', 'e', 'l', 'p']);
    assert(w_dhelp@ == seq!['-', '-', 'h', 'e', 'l', 'p']);
    assert(w_shelp@ == seq!['-', 'h', 'e', 'l', 'p']);
    assert(w_h@ == seq!['-', 'h']);
    let w_add = ['a', 'd', 'd'];
    let w_list = ['l', 'i', 's', 't'];
    let w_extract = ['e', 'x', 't', 'r', 'a', 'c', 't'];
    let w_remove = ['r', 'e', 'm', 'o', 'v', 'e'];
    assert(w_add@ == word_add());
    assert(w_list@ == word_list());
    assert(w_extract@ == word_extract());
    assert(w_remove@ == word_remove());
    proof {
        reveal_strlit("");
    }
    if is_word(first, w_add.as_slice()) {
        let rest = &args[1..args.len()];
        assert(string_views(rest@) =~= v.skip(1));
        match parse_add_args(rest) {
            Ok(a) => {
                return Ok(Command::Add(a));
            },
            Err(e) => {
                return Err(e);
            },
        }
    } else if is_word(first, w_list.as_slice()) {
        if args.len() != 2 {
            return Err(cli_error(CliErrorKind::ListUsage, ""));
        }
        return Ok(Command::List { archive_path: args[1].clone() });
    } else if is_word(first, w_extract.as_slice()) {
        if args.len() < 4 {
            return Err(cli_error(CliErrorKind::ExtractUsage, ""));
        }
        let w_remove_flag = ['-', '-', 'r', 'e', 'm', 'o', 'v', 'e'];
        assert(w_remove_flag@ == word_remove_flag());
        let remove = any_word_from(args, 4, w_remove_flag.as_slice());
        return Ok(
            Command::Extract {
                archive_path: args[1].clone(),
                selector: args[2].clone(),
                destination: args[3].clone(),
                remove,
            },
        );
    } else if is_word(first, w_remove.as_slice()) {
        if args.len() != 3 {
            return Err(cli_error(CliErrorKind::RemoveUsage, ""));
        }
        return Ok(Command::Remove { archive_path: args[1].clone(), selector: args[2].clone() });
    }
    Err(cli_error(CliErrorKind::UnknownCommand, first))
}

// ---------------------------------------------------------------------------
// Answers to questions.
// ---------------------------------------------------------------------------

/// An answer without surrounding white space, in ASCII lower case.
pub open spec fn normalized(s: Seq<char>) -> Seq<char> {
    ascii_lowercase(trimmed(s))
}

/// `s` trimmed and ASCII lower-cased.
fn normalize(s: &str) -> (res: Vec<char>)
    ensures
        res@ == normalized(s@),
{
    let cs = chars_of(s);
    let t = trim_chars(cs.as_slice());
    lowercase_chars(t.as_slice())
}

/// Reads an answer to a yes-or-no question: `yes` or `y` (after trimming,
/// in any ASCII case) is yes, `no` or `n` is no; anything else is not an
/// answer (`None`: the question is asked again).
pub fn interpret_yes_no(input: &str) -> (res: Option<bool>)
    ensures
        res == if is_yes(normalized(input@)) {
            Some(true)
        } else if is_no(normalized(input@)) {
            Some(false)
        } else {
            None
        },
{
    let v = normalize(input);
    let yes = ['y', 'e', 's'];
    let y = ['y'];
    let no = ['n', 'o'];
    let n = ['n'];
    assert(yes@ == seq!['y', 'e', 's']);
    assert(y@ == seq!['y']);
    assert(no@ == seq!['n', 'o']);
    assert(n@ == seq!['n']);
    if chars_equal(v.as_slice(), yes.as_slice()) || chars_equal(v.as_slice(), y.as_slice()) {
        Some(true)
    } else if chars_equal(v.as_slice(), no.as_slice()) || chars_equal(v.as_slice(), n.as_slice()) {
        Some(false)
    } else {
        None
    }
}

/// Reads the answer to "use the default compression?": empty, `y` or
/// `yes` (after trimming, in any ASCII case) keeps the default; `n` or `no`
/// asks for a compression name; anything else asks again.
pub fn interpret_default_choice(input: &str) -> (res: DefaultChoice)
    ensures
        res == if normalized(input@).len() == 0 || is_yes(normalized(input@)) {
            DefaultChoice::UseDefault
        } else if is_no(normalized(input@)) {
            DefaultChoice::Choose
        } else {
            DefaultChoice::Retry
        },
{
    let v = normalize(input);
    if v.len() == 0 {
        return DefaultChoice::UseDefault;
    }
    let yes = ['y', 'e', 's'];
    let y = ['y'];
    let no = ['n', 'o'];
    let n = ['n'];
    assert(yes@ == seq!['y', 'e', 's']);
    assert(y@ == seq!['y']);
    assert(no@ == seq!['n', 'o']);
    assert(n@ == seq!['n']);
    if chars_equal(v.as_slice(), yes.as_slice()) || chars_equal(v.as_slice(), y.as_slice()) {
        DefaultChoice::UseDefault
    } else if chars_equal(v.as_slice(), no.as_slice()) || chars_equal(v.as_slice(), n.as_slice()) {
        DefaultChoice::Choose
    } else {
        DefaultChoice::Retry
    }
}

/// Reads a compression name typed in answer to "choose compression mode":
/// the name after trimming, in any ASCII case; `None` asks again.
pub fn interpret_compression_choice(input: &str) -> (res: Option<CompressionType>)
    ensures
        res == CompressionType::spec_from_name(trimmed(input@)),
{
    let cs = chars_of(input);
    let t = trim_chars(cs.as_slice());
    let s = string_from_chars(t.as_slice());
    CompressionType::from_str(s.as_str())
}

// ---------------------------------------------------------------------------
// Finding an item.
// ---------------------------------------------------------------------------

/// The id of the item that `selector` names: the UUID it spells when an
/// item has that id, else the id of the first item with that name.
pub open spec fn spec_resolve<T>(items: Seq<FileItem<T>>, selector: Seq<char>) -> Option<u128> {
    match uuid_parsed(selector) {
        Some(u) if first_with_id(items, u) is Some => Some(u),
        _ => match first_with_name(items, selector) {
            Some(k) => Some(items[k].id),
            None => None,
        },
    }
}

/// Resolving a selector: a UUID that some item has resolves to itself;
/// any other selector resolves to the id of the first item whose name is
/// exactly the selector, and to nothing when no item has that name.
pub proof fn law_resolve<T>(items: Seq<FileItem<T>>, selector: Seq<char>)
    ensures
        (uuid_parsed(selector) matches Some(u) && exists|i: int|
            0 <= i < items.len() && #[trigger] items[i].id == u) ==> spec_resolve(items, selector)
            == uuid_parsed(selector),
        !(uuid_parsed(selector) matches Some(u) && exists|i: int|
            0 <= i < items.len() && #[trigger] items[i].id == u) ==> {
            &&& forall|k: int|
                0 <= k < items.len() && #[trigger] items[k].name@ == selector && (forall|j: int|
                    0 <= j < k ==> #[trigger] items[j].name@ != selector) ==> spec_resolve(
                    items,
                    selector,
                ) == Some(items[k].id)
            &&& (forall|j: int| 0 <= j < items.len() ==> #[trigger] items[j].name@ != selector)
                ==> spec_resolve(items, selector) is None
        },
{
    crate::item::lemma_first_with_name(items, selector);
    if let Some(u) = uuid_parsed(selector) {
        crate::item::lemma_first_with_id(items, u);
        if let Some(t) = first_with_id(items, u) {
            assert(items[t].id == u);
        }
    }
    assert forall|k: int|
        0 <= k < items.len() && #[trigger] items[k].name@ == selector && (forall|j: int|
            0 <= j < k ==> #[trigger] items[j].name@ != selector) implies first_with_name(
        items,
        selector,
    ) == Some(k) by {
        let f = first_with_name(items, selector)->0;
        if f < k {
            assert(items[f].name@ != selector);
        } else if f > k {
            assert(items[k].name@ != selector);
        }
    }
}

/// The id of the item that `selector` names: a UUID that an item has, or
/// else the name of an item (the first with that name).  `ItemNotFound`
/// (about the selector) when it names none.
pub fn resolve_item_id<T>(items: &[FileItem<T>], selector: &str) -> (res: Result<u128, CliError>)
    ensures
        match res {
            Ok(id) => spec_resolve(items@, selector@) == Some(id),
            Err(e) => spec_resolve(items@, selector@) is None && e.describe() == (
                CliErrorKind::ItemNotFound,
                selector@,
            ),
        },
{
    if let Some(u) = uuid_parse(selector) {
        if position_of_id(items, u).is_some() {
            return Ok(u);
        }
    }
    proof {
        crate::item::lemma_first_with_name(items@, selector@);
    }
    match position_of_name(items, selector) {
        Some(k) => Ok(items[k].id),
        None => Err(cli_error(CliErrorKind::ItemNotFound, selector)),
    }
}

} // verus!
