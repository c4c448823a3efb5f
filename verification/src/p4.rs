//! Perforce: the errors of `p4` commands, the objects read from their tagged
//! output, and what is sent to and taken back from a `p4` process.

use vstd::prelude::*;
use vstd::std_specs::convert::FromSpecImpl;
use vstd::utf8::{decode_utf8, valid_utf8};
use crate::text::{decimal, parse_u32, parse_u32_spec, push_decimal, lemma_decimal_injective};
use crate::ztag::{parse_ztag, ztag_records, RecordMap, ZtagOutput, ZtagRecord};

verus! {

#[verifier::external_type_specification]
#[verifier::external_body]
pub struct ExIoError(std::io::Error);

#[verifier::external_type_specification]
#[verifier::external_body]
pub struct ExFromUtf8Error(std::string::FromUtf8Error);

/// An error of a `p4` command.
#[derive(Debug)]
pub enum P4Error {
    /// The process could not be run or read.
    Io(std::io::Error),
    /// The process failed; what it wrote to its standard error.
    Process(String),
    /// The process wrote something that is not UTF-8.
    Utf8(std::string::FromUtf8Error),
}

impl P4Error {
    /// The text of the error, as shown to the user.
    pub fn message(&self) -> (m: String)
        ensures
            match self {
                P4Error::Io(e) => exists|t: String|
                    vstd::string::to_string_from_display_ensures::<std::io::Error>(e, t) && m@ == "IO error: "@
                        + t@,
                P4Error::Process(e) => m@ == "P4 process error: "@ + e@,
                P4Error::Utf8(e) => exists|t: String|
                    vstd::string::to_string_from_display_ensures::<std::string::FromUtf8Error>(e, t) && m@
                        == "UTF-8 conversion error: "@ + t@,
            },
    {
        match self {
            P4Error::Io(e) => {
                let t = e.to_string();
                let mut m = String::from_str("IO error: ");
                m.append(t.as_str());
                m
            },
            P4Error::Process(e) => {
                let mut m = String::from_str("P4 process error: ");
                m.append(e.as_str());
                m
            },
            P4Error::Utf8(e) => {
                let t = e.to_string();
                let mut m = String::from_str("UTF-8 conversion error: ");
                m.append(t.as_str());
                m
            },
        }
    }
}


impl From<std::io::Error> for P4Error {
    fn from(error: std::io::Error) -> (r: Self) {
        P4Error::Io(error)
    }
}

impl FromSpecImpl<std::io::Error> for P4Error {
    open spec fn obeys_from_spec() -> bool {
        true
    }

    open spec fn from_spec(error: std::io::Error) -> P4Error {
        P4Error::Io(error)
    }
}

impl From<std::string::FromUtf8Error> for P4Error {
    fn from(error: std::string::FromUtf8Error) -> (r: Self) {
        P4Error::Utf8(error)
    }
}

impl FromSpecImpl<std::string::FromUtf8Error> for P4Error {
    open spec fn obeys_from_spec() -> bool {
        true
    }

    open spec fn from_spec(error: std::string::FromUtf8Error) -> P4Error {
        P4Error::Utf8(error)
    }
}

/// The views of a list of strings.
pub open spec fn string_views(v: Seq<String>) -> Seq<Seq<char>> {
    v.map_values(|s: String| s@)
}

/// A copy of a list of strings.
fn clone_strings(v: &Vec<String>) -> (r: Vec<String>)
    ensures
        string_views(r@) == string_views(v@),
{
    let mut r: Vec<String> = Vec::new();
    let mut i: usize = 0;
    while i < v.len()
        invariant
            0 <= i <= v@.len(),
            r@.len() == i,
            forall|j: int| 0 <= j < i ==> #[trigger] r@[j]@ == v@[j]@,
        decreases v@.len() - i,
    {
        r.push(v[i].clone());
        i = i + 1;
    }
    assert(string_views(r@) =~= string_views(v@));
    r
}

/// The connection settings of `p4`: server, user and client workspace; an
/// empty setting is left to the environment.
#[derive(Debug)]
pub struct P4Settings {
    pub port: String,
    pub user: String,
    pub client: String,
}

impl Clone for P4Settings {
    fn clone(&self) -> (r: Self)
        ensures
            r.port@ == self.port@,
            r.user@ == self.user@,
            r.client@ == self.client@,
    {
        P4Settings { port: self.port.clone(), user: self.user.clone(), client: self.client.clone() }
    }
}

impl Default for P4Settings {
    fn default() -> (r: Self)
        ensures
            r.port@ == Seq::<char>::empty(),
            r.user@ == Seq::<char>::empty(),
            r.client@ == Seq::<char>::empty(),
    {
        P4Settings { port: String::new(), user: String::new(), client: String::new() }
    }
}

/// The environment variable `name` set to `value`, where `value` is not empty.
pub open spec fn env_entry(name: Seq<char>, value: Seq<char>) -> Seq<(Seq<char>, Seq<char>)> {
    if value.len() == 0 {
        Seq::empty()
    } else {
        seq![(name, value)]
    }
}

/// The environment variables that a `p4` process gets from the settings:
/// `P4PORT`, `P4USER` and `P4CLIENT`, each where its setting is not empty.
pub open spec fn p4_env_spec(port: Seq<char>, user: Seq<char>, client: Seq<char>) -> Seq<
    (Seq<char>, Seq<char>),
> {
    env_entry("P4PORT"@, port) + env_entry("P4USER"@, user) + env_entry("P4CLIENT"@, client)
}

/// The views of a list of environment variables.
pub open spec fn env_views(v: Seq<(String, String)>) -> Seq<(Seq<char>, Seq<char>)> {
    v.map_values(|e: (String, String)| (e.0@, e.1@))
}

fn push_env(env: &mut Vec<(String, String)>, name: &str, value: &String)
    ensures
        env_views(final(env)@) == env_views(old(env)@) + env_entry(name@, value@),
{
    let ghost before = env@;
    if !value.as_str().is_empty() {
        env.push((String::from_str(name), value.clone()));
        assert(env_views(env@) =~= env_views(before) + env_entry(name@, value@));
    } else {
        assert(env_views(env@) =~= env_views(before) + env_entry(name@, value@));
    }
}

/// The environment of a `p4` process passes on each setting that is not
/// empty, under its own variable (`P4PORT` the port, `P4USER` the user,
/// `P4CLIENT` the client), and nothing else: one entry per non-empty setting.
pub proof fn lemma_env_passes_settings(port: Seq<char>, user: Seq<char>, client: Seq<char>)
    ensures
        forall|name: Seq<char>, value: Seq<char>|
            #[trigger] p4_env_spec(port, user, client).contains((name, value)) <==> {
                ||| name == "P4PORT"@ && value == port && port.len() > 0
                ||| name == "P4USER"@ && value == user && user.len() > 0
                ||| name == "P4CLIENT"@ && value == client && client.len() > 0
            },
        p4_env_spec(port, user, client).len() == (if port.len() > 0 { 1int } else { 0 }) + (
        if user.len() > 0 { 1int } else { 0 }) + (if client.len() > 0 { 1int } else { 0 }),
{
    let e = p4_env_spec(port, user, client);
    let a = env_entry("P4PORT"@, port);
    let b = env_entry("P4USER"@, user);
    let c = env_entry("P4CLIENT"@, client);
    assert forall|name: Seq<char>, value: Seq<char>|
        #[trigger] e.contains((name, value)) <==> {
            ||| name == "P4PORT"@ && value == port && port.len() > 0
            ||| name == "P4USER"@ && value == user && user.len() > 0
            ||| name == "P4CLIENT"@ && value == client && client.len() > 0
        } by {
        if e.contains((name, value)) {
            let k = choose|k: int| 0 <= k < e.len() && e[k] == (name, value);
            if k < a.len() {
                assert(e[k] == a[k]);
            } else if k < a.len() + b.len() {
                assert(e[k] == b[k - a.len()]);
            } else {
                assert(e[k] == c[k - a.len() - b.len()]);
            }
        }
        if name == "P4PORT"@ && value == port && port.len() > 0 {
            assert(e[0] == (name, value));
        }
        if name == "P4USER"@ && value == user && user.len() > 0 {
            assert(e[a.len() as int] == (name, value));
        }
        if name == "P4CLIENT"@ && value == client && client.len() > 0 {
            assert(e[(a.len() + b.len()) as int] == (name, value));
        }
    }
}

/// The environment variables to set for a `p4` process.
pub fn p4_env(settings: Option<&P4Settings>) -> (env: Vec<(String, String)>)
    ensures
        env_views(env@) == match settings {
            None => Seq::empty(),
            Some(s) => p4_env_spec(s.port@, s.user@, s.client@),
        },
{
    let mut env: Vec<(String, String)> = Vec::new();
    assert(env_views(env@) =~= Seq::<(Seq<char>, Seq<char>)>::empty());
    match settings {
        None => {},
        Some(s) => {
            push_env(&mut env, "P4PORT", &s.port);
            push_env(&mut env, "P4USER", &s.user);
            push_env(&mut env, "P4CLIENT", &s.client);
            assert(env_views(env@) =~= p4_env_spec(s.port@, s.user@, s.client@));
        },
    }
    env
}

/// The arguments of `p4` for a command whose output is read tagged:
/// `-Ztag`, then the command's own arguments.
pub fn ztag_args(args: &Vec<String>) -> (r: Vec<String>)
    ensures
        string_views(r@) == seq!["-Ztag"@] + string_views(args@),
{
    let mut r: Vec<String> = Vec::new();
    r.push(String::from_str("-Ztag"));
    let mut i: usize = 0;
    while i < args.len()
        invariant
            0 <= i <= args@.len(),
            r@.len() == i + 1,
            r@[0]@ == "-Ztag"@,
            forall|j: int| 0 <= j < i ==> #[trigger] r@[j + 1]@ == args@[j]@,
        decreases args@.len() - i,
    {
        r.push(args[i].clone());
        i = i + 1;
    }
    assert forall|k: int| 1 <= k < r@.len() implies r@[k]@ == args@[k - 1]@ by {
        assert(r@[(k - 1) + 1]@ == args@[k - 1]@);
    }
    assert(string_views(r@) =~= seq!["-Ztag"@] + string_views(args@));
    r
}

/// The arguments of `p4` that print the content of a file at a revision:
/// `print -q <path>`.
pub fn print_args(path_with_rev: &str) -> (r: Vec<String>)
    ensures
        string_views(r@) == seq!["print"@, "-q"@, path_with_rev@],
{
    let r = vec![String::from_str("print"), String::from_str("-q"), String::from_str(path_with_rev)];
    assert(string_views(r@) =~= seq!["print"@, "-q"@, path_with_rev@]);
    r
}

/// The arguments of `p4` (before `-Ztag`) that list the revision history of
/// a path, with the change list of each revision: `filelog <path>`.
pub fn history_args(path: &str) -> (r: Vec<String>)
    ensures
        string_views(r@) == seq!["filelog"@, path@],
{
    let r = vec![String::from_str("filelog"), String::from_str(path)];
    assert(string_views(r@) =~= seq!["filelog"@, path@]);
    r
}

/// The arguments of `p4` (before `-Ztag`) that describe a change list
/// briefly: `describe -s <id>`.
pub fn describe_args(cl_id: u32) -> (r: Vec<String>)
    ensures
        string_views(r@) == seq!["describe"@, "-s"@, decimal(cl_id as nat)],
{
    let mut id = String::new();
    push_decimal(&mut id, cl_id as u64);
    assert(id@ =~= decimal(cl_id as nat));
    let r = vec![String::from_str("describe"), String::from_str("-s"), id];
    assert(string_views(r@) =~= seq!["describe"@, "-s"@, decimal(cl_id as nat)]);
    r
}

/// A name for what `String::from_utf8_lossy` makes of some bytes: the
/// characters they encode, each invalid sequence replaced by U+FFFD.
pub uninterp spec fn utf8_lossy(bytes: Seq<u8>) -> Seq<char>;

/// Calls `String::from_utf8_lossy` (and takes the result as an owned
/// string). Its result is named `utf8_lossy`; where the bytes are valid
/// UTF-8 it is the characters they encode, as its documentation says.
#[verifier::external_body]
fn lossy_string(bytes: &Vec<u8>) -> (s: String)
    ensures
        s@ == utf8_lossy(bytes@),
        valid_utf8(bytes@) ==> s@ == decode_utf8(bytes@),
{
    String::from_utf8_lossy(bytes).into_owned()
}

/// Calls `String::from_utf8`, which gives the string that the bytes encode
/// where they are valid UTF-8, and an error where they are not.
#[verifier::external_body]
fn string_from_utf8(bytes: Vec<u8>) -> (r: Result<String, std::string::FromUtf8Error>)
    ensures
        r is Ok <==> valid_utf8(bytes@),
        r matches Ok(s) ==> s@ == decode_utf8(bytes@),
{
    String::from_utf8(bytes)
}

/// `r` is what a finished `p4` process gives: its standard output as text
/// where it succeeded (a `Utf8` error where the output is not UTF-8), else a
/// `Process` error with its standard error, invalid UTF-8 replaced.
pub open spec fn is_command_result(
    success: bool,
    stdout: Seq<u8>,
    stderr: Seq<u8>,
    r: Result<String, P4Error>,
) -> bool {
    if success {
        if valid_utf8(stdout) {
            r matches Ok(s) && s@ == decode_utf8(stdout)
        } else {
            r matches Err(P4Error::Utf8(_))
        }
    } else {
        r matches Err(P4Error::Process(m)) && m@ == utf8_lossy(stderr)
    }
}

/// What a finished `p4` process gives: its standard output as text where it
/// succeeded (a `Utf8` error where the output is not UTF-8), else a
/// `Process` error with its standard error, invalid UTF-8 replaced.
pub fn command_result(success: bool, stdout: Vec<u8>, stderr: Vec<u8>) -> (r: Result<
    String,
    P4Error,
>)
    ensures
        is_command_result(success, stdout@, stderr@, r),
{
    if success {
        match string_from_utf8(stdout) {
            Ok(s) => Ok(s),
            Err(e) => Err(P4Error::Utf8(e)),
        }
    } else {
        Err(P4Error::Process(lossy_string(&stderr)))
    }
}

/// What running a `p4` process gives: an `Io` error where it could not be
/// run or read, else what it gives when finished (whether it succeeded, its
/// standard output, its standard error).
pub fn process_result(outcome: Result<(bool, Vec<u8>, Vec<u8>), std::io::Error>) -> (r: Result<
    String,
    P4Error,
>)
    ensures
        match outcome {
            Ok(finished) => is_command_result(finished.0, finished.1@, finished.2@, r),
            Err(e) => r == Err::<String, P4Error>(P4Error::Io(e)),
        },
{
    match outcome {
        Ok((success, stdout, stderr)) => command_result(success, stdout, stderr),
        Err(e) => Err(P4Error::Io(e)),
    }
}

/// The value of `key` in a record, or the empty string where it has none.
pub open spec fn field_or_empty(r: RecordMap, key: Seq<char>) -> Seq<char> {
    if r.contains_key(key) {
        r[key]
    } else {
        Seq::empty()
    }
}

/// The value of `key` in the record, or an empty string.
fn field_or_default(record: &ZtagRecord, key: &str) -> (v: String)
    ensures
        v@ == field_or_empty(record@, key@),
{
    match record.get(key) {
        Some(v) => v.clone(),
        None => String::new(),
    }
}

/// A submitted change list, as the history of a path shows it.
#[derive(Debug)]
pub struct Changelist {
    pub id: u32,
    pub author: String,
    pub date: String,
    pub description: String,
}

/// A change list by its plain values.
pub struct ChangelistView {
    pub id: u32,
    pub author: Seq<char>,
    pub date: Seq<char>,
    pub description: Seq<char>,
}

impl View for Changelist {
    type V = ChangelistView;

    open spec fn view(&self) -> ChangelistView {
        ChangelistView {
            id: self.id,
            author: self.author@,
            date: self.date@,
            description: self.description@,
        }
    }
}

impl Clone for Changelist {
    fn clone(&self) -> (r: Self)
        ensures
            r@ == self@,
    {
        Changelist {
            id: self.id,
            author: self.author.clone(),
            date: self.date.clone(),
            description: self.description.clone(),
        }
    }
}

impl Default for Changelist {
    fn default() -> (r: Self)
        ensures
            r@ == (ChangelistView {
                id: 0,
                author: Seq::empty(),
                date: Seq::empty(),
                description: Seq::empty(),
            }),
    {
        Changelist { id: 0, author: String::new(), date: String::new(), description: String::new() }
    }
}

/// The key of the `i`-th of the fields called `name` in a record that lists
/// several objects of a kind: `name` followed by `i` in decimal (such as
/// `change0`, `depotFile3`).
pub open spec fn indexed_key(name: Seq<char>, i: nat) -> Seq<char> {
    name + decimal(i)
}

proof fn lemma_indexed_key_injective(name: Seq<char>, a: nat, b: nat)
    requires
        indexed_key(name, a) == indexed_key(name, b),
    ensures
        a == b,
{
    assert(indexed_key(name, a).subrange(name.len() as int, indexed_key(name, a).len() as int)
        =~= decimal(a));
    assert(indexed_key(name, b).subrange(name.len() as int, indexed_key(name, b).len() as int)
        =~= decimal(b));
    lemma_decimal_injective(a, b);
}

/// The key `<name><i>`.
fn indexed_key_string(name: &str, i: usize) -> (k: String)
    ensures
        k@ == indexed_key(name@, i as nat),
{
    let mut k = String::from_str(name);
    push_decimal(&mut k, i as u64);
    k
}

/// `n` is the number of revisions in a record of `p4 filelog`: the record
/// holds `change0`, `change1`, ..., `change<n-1>` and lacks `change<n>`.
pub open spec fn is_revision_count(r: RecordMap, n: nat) -> bool {
    &&& forall|i: int|
        0 <= i < n ==> r.contains_key(#[trigger] indexed_key("change"@, i as nat))
    &&& !r.contains_key(indexed_key("change"@, n))
}

/// The number of revisions in a record of `p4 filelog` (one number is the
/// count: `lemma_revision_count_unique`).
pub open spec fn revision_count(r: RecordMap) -> nat {
    choose|n: nat| is_revision_count(r, n)
}

/// A record of `p4 filelog` has at most one number of revisions.
pub proof fn lemma_revision_count_unique(r: RecordMap, a: nat, b: nat)
    requires
        is_revision_count(r, a),
        is_revision_count(r, b),
    ensures
        a == b,
{
    if a < b {
        let i: int = a as int;
        assert(r.contains_key(indexed_key("change"@, i as nat)));
    } else if b < a {
        let i: int = b as int;
        assert(r.contains_key(indexed_key("change"@, i as nat)));
    }
}

/// The change list of the `i`-th revision in a record of `p4 filelog`: its
/// number is the field `change<i>` (a `u32`), its author `user<i>`, its date
/// `time<i>` and its description `desc<i>`, each empty where absent. `None`
/// where `change<i>` is no `u32`.
pub open spec fn revision_of(r: RecordMap, i: nat) -> Option<ChangelistView> {
    match parse_u32_spec(r[indexed_key("change"@, i)]) {
        Some(id) => Some(
            ChangelistView {
                id,
                author: field_or_empty(r, indexed_key("user"@, i)),
                date: field_or_empty(r, indexed_key("time"@, i)),
                description: field_or_empty(r, indexed_key("desc"@, i)),
            },
        ),
        None => None,
    }
}

/// The change lists of the first `n` revisions of a record of `p4 filelog`,
/// in order; revisions whose change number is no `u32` are skipped.
pub open spec fn revisions_upto(r: RecordMap, n: nat) -> Seq<ChangelistView>
    decreases n,
{
    if n == 0 {
        Seq::empty()
    } else {
        let before = revisions_upto(r, (n - 1) as nat);
        match revision_of(r, (n - 1) as nat) {
            Some(c) => before.push(c),
            None => before,
        }
    }
}

/// The change lists of all revisions of a record of `p4 filelog` (one file),
/// newest first as `p4` lists them.
pub open spec fn revisions_of(r: RecordMap) -> Seq<ChangelistView> {
    revisions_upto(r, revision_count(r))
}

/// Where every revision's change number is a `u32`, the history of a record
/// of `p4 filelog` holds one change list for each of its revisions, in order:
/// the `i`-th has the number of `change<i>` and the author, date and
/// description of `user<i>`, `time<i>` and `desc<i>`. No revision is left
/// out, however many there are.
pub proof fn lemma_revisions_complete(r: RecordMap, n: nat)
    requires
        is_revision_count(r, n),
        forall|i: int| 0 <= i < n ==> (#[trigger] parse_u32_spec(r[indexed_key("change"@, i as nat)])) is Some,
    ensures
        revisions_of(r).len() == n,
        forall|i: int|
            0 <= i < n ==> {
                &&& (#[trigger] revisions_of(r)[i]).id == parse_u32_spec(
                    r[indexed_key("change"@, i as nat)],
                ).unwrap()
                &&& revisions_of(r)[i].author == field_or_empty(r, indexed_key("user"@, i as nat))
                &&& revisions_of(r)[i].date == field_or_empty(r, indexed_key("time"@, i as nat))
                &&& revisions_of(r)[i].description == field_or_empty(
                    r,
                    indexed_key("desc"@, i as nat),
                )
            },
{
    lemma_revision_count_unique(r, n, revision_count(r));
    lemma_revisions_upto_complete(r, n);
}

proof fn lemma_revisions_upto_complete(r: RecordMap, m: nat)
    requires
        forall|i: int| 0 <= i < m ==> (#[trigger] parse_u32_spec(r[indexed_key("change"@, i as nat)])) is Some,
    ensures
        revisions_upto(r, m).len() == m,
        forall|i: int|
            0 <= i < m ==> {
                &&& (#[trigger] revisions_upto(r, m)[i]).id == parse_u32_spec(
                    r[indexed_key("change"@, i as nat)],
                ).unwrap()
                &&& revisions_upto(r, m)[i].author == field_or_empty(r, indexed_key("user"@, i as nat))
                &&& revisions_upto(r, m)[i].date == field_or_empty(r, indexed_key("time"@, i as nat))
                &&& revisions_upto(r, m)[i].description == field_or_empty(
                    r,
                    indexed_key("desc"@, i as nat),
                )
            },
    decreases m,
{
    if m > 0 {
        let k = (m - 1) as nat;
        lemma_revisions_upto_complete(r, k);
        let ki: int = k as int;
        assert(parse_u32_spec(r[indexed_key("change"@, ki as nat)]) is Some);
        assert forall|i: int| 0 <= i < m implies {
            &&& (#[trigger] revisions_upto(r, m)[i]).id == parse_u32_spec(
                r[indexed_key("change"@, i as nat)],
            ).unwrap()
            &&& revisions_upto(r, m)[i].author == field_or_empty(r, indexed_key("user"@, i as nat))
            &&& revisions_upto(r, m)[i].date == field_or_empty(r, indexed_key("time"@, i as nat))
            &&& revisions_upto(r, m)[i].description == field_or_empty(
                r,
                indexed_key("desc"@, i as nat),
            )
        } by {
            if i < k {
                assert(revisions_upto(r, m)[i] == revisions_upto(r, k)[i]);
            }
        }
    }
}

/// The history of a record holds a change list for a revision exactly when
/// its change number is a `u32`: as many change lists as such revisions, and
/// never more than there are revisions.
pub proof fn lemma_revisions_count(r: RecordMap, m: nat)
    ensures
        revisions_upto(r, m).len() == Seq::new(m, |i: int| i).filter(
            |i: int| parse_u32_spec(r[indexed_key("change"@, i as nat)]) is Some,
        ).len(),
        revisions_upto(r, m).len() <= m,
    decreases m,
{
    let p = |i: int| parse_u32_spec(r[indexed_key("change"@, i as nat)]) is Some;
    if m > 0 {
        let k = (m - 1) as nat;
        lemma_revisions_count(r, k);
        assert(Seq::new(m, |i: int| i) =~= Seq::new(k, |i: int| i).push(k as int));
        Seq::new(k, |i: int| i).lemma_filter_push(k as int, p);
    } else {
        assert(Seq::new(m, |i: int| i).filter(p) =~= Seq::<int>::empty()) by {
            reveal(Seq::filter);
        }
    }
}

/// The change lists in the records of `p4 filelog`: those of each file's
/// revisions, file after file.
pub open spec fn changelists_of(records: Seq<RecordMap>) -> Seq<ChangelistView>
    decreases records.len(),
{
    if records.len() == 0 {
        Seq::empty()
    } else {
        changelists_of(records.drop_last()) + revisions_of(records.last())
    }
}

/// The views of a list of change lists.
pub open spec fn changelist_views(v: Seq<Changelist>) -> Seq<ChangelistView> {
    v.map_values(|c: Changelist| c@)
}

/// Appends the change lists of the revisions in one record of `p4 filelog`.
fn push_revisions(record: &ZtagRecord, changes: &mut Vec<Changelist>)
    ensures
        changelist_views(final(changes)@) == changelist_views(old(changes)@) + revisions_of(
            record@,
        ),
{
    let n = record.len();
    let ghost base = changelist_views(changes@);
    let mut i: usize = 0;
    let ghost mut remaining = record@.dom();
    assert(changelist_views(changes@) =~= base + revisions_upto(record@, 0));
    loop
        invariant
            record@.dom().finite(),
            n == record@.dom().len(),
            remaining.finite(),
            i + remaining.len() <= n,
            forall|j: int|
                0 <= j < i ==> record@.contains_key(#[trigger] indexed_key("change"@, j as nat)),
            forall|k: Seq<char>|
                record@.contains_key(k) && (forall|j: int|
                    0 <= j < i ==> k != #[trigger] indexed_key("change"@, j as nat))
                    ==> remaining.contains(k),
            changelist_views(changes@) == base + revisions_upto(record@, i as nat),
        ensures
            forall|j: int|
                0 <= j < i ==> record@.contains_key(#[trigger] indexed_key("change"@, j as nat)),
            !record@.contains_key(indexed_key("change"@, i as nat)),
            changelist_views(changes@) == base + revisions_upto(record@, i as nat),
        decreases remaining.len(),
    {
        let key = indexed_key_string("change", i);
        match record.get(key.as_str()) {
            Some(change_str) => {
                let ghost k = indexed_key("change"@, i as nat);
                proof {
                    assert forall|j: int| 0 <= j < i implies k != #[trigger] indexed_key(
                        "change"@,
                        j as nat,
                    ) by {
                        if k == indexed_key("change"@, j as nat) {
                            lemma_indexed_key_injective("change"@, i as nat, j as nat);
                        }
                    }
                    assert(remaining.contains(k));
                    remaining = remaining.remove(k);
                }
                let ghost before = changes@;
                let ghost upto = revisions_upto(record@, i as nat);
                match parse_u32(change_str.as_str()) {
                    Some(id) => {
                        let user = indexed_key_string("user", i);
                        let time = indexed_key_string("time", i);
                        let desc = indexed_key_string("desc", i);
                        let c = Changelist {
                            id,
                            author: field_or_default(record, user.as_str()),
                            date: field_or_default(record, time.as_str()),
                            description: field_or_default(record, desc.as_str()),
                        };
                        changes.push(c);
                        assert(revisions_upto(record@, (i + 1) as nat) == upto.push(c@));
                        assert(changelist_views(changes@) =~= changelist_views(before).push(c@));
                        assert(changelist_views(changes@) =~= base + revisions_upto(
                            record@,
                            (i + 1) as nat,
                        ));
                    },
                    None => {
                        assert(revisions_upto(record@, (i + 1) as nat) == upto);
                    },
                }
                i = i + 1;
                proof {
                    assert forall|kk: Seq<char>|
                        record@.contains_key(kk) && (forall|j: int|
                            0 <= j < i ==> kk != #[trigger] indexed_key(
                                "change"@,
                                j as nat,
                            )) implies remaining.contains(kk) by {
                        assert(kk != indexed_key("change"@, (i - 1) as nat));
                    }
                }
            },
            None => {
                break ;
            },
        }
    }
    proof {
        assert(is_revision_count(record@, i as nat));
        lemma_revision_count_unique(record@, i as nat, revision_count(record@));
    }
}

/// The change lists in the tagged output of `p4 filelog`.
pub fn changelists_from_ztag(ztag: &ZtagOutput) -> (res: Vec<Changelist>)
    ensures
        changelist_views(res@) == changelists_of(ztag@),
{
    let mut changes: Vec<Changelist> = Vec::new();
    let mut i: usize = 0;
    assert(ztag@.subrange(0, 0) =~= Seq::<RecordMap>::empty());
    assert(changelist_views(changes@) =~= Seq::<ChangelistView>::empty());
    while i < ztag.records.len()
        invariant
            0 <= i <= ztag@.len(),
            ztag@.len() == ztag.records@.len(),
            changelist_views(changes@) == changelists_of(ztag@.subrange(0, i as int)),
        decreases ztag@.len() - i,
    {
        let record = &ztag.records[i];
        assert(ztag@.subrange(0, i + 1).drop_last() =~= ztag@.subrange(0, i as int));
        assert(ztag@[i as int] == record@);
        push_revisions(record, &mut changes);
        i = i + 1;
    }
    assert(ztag@.subrange(0, i as int) =~= ztag@);
    changes
}

/// A change list with the files it affects, as `p4 describe -s` shows it.
#[derive(Debug)]
pub struct ChangelistDetail {
    pub id: u32,
    pub author: String,
    pub date: String,
    pub description: String,
    pub affected_files: Vec<String>,
}

/// A change list's detail by its plain values.
pub struct ChangelistDetailView {
    pub id: u32,
    pub author: Seq<char>,
    pub date: Seq<char>,
    pub description: Seq<char>,
    pub affected_files: Seq<Seq<char>>,
}

impl View for ChangelistDetail {
    type V = ChangelistDetailView;

    open spec fn view(&self) -> ChangelistDetailView {
        ChangelistDetailView {
            id: self.id,
            author: self.author@,
            date: self.date@,
            description: self.description@,
            affected_files: string_views(self.affected_files@),
        }
    }
}

impl Clone for ChangelistDetail {
    fn clone(&self) -> (r: Self)
        ensures
            r@ == self@,
    {
        ChangelistDetail {
            id: self.id,
            author: self.author.clone(),
            date: self.date.clone(),
            description: self.description.clone(),
            affected_files: clone_strings(&self.affected_files),
        }
    }
}

impl Default for ChangelistDetail {
    fn default() -> (r: Self)
        ensures
            r@ == (ChangelistDetailView {
                id: 0,
                author: Seq::empty(),
                date: Seq::empty(),
                description: Seq::empty(),
                affected_files: Seq::empty(),
            }),
    {
        let r = ChangelistDetail {
            id: 0,
            author: String::new(),
            date: String::new(),
            description: String::new(),
            affected_files: Vec::new(),
        };
        assert(r@.affected_files =~= Seq::<Seq<char>>::empty());
        r
    }
}

/// The affected files of a record are all its consecutive `depotFile<i>`
/// from `depotFile0`: where the record holds `depotFile0` to
/// `depotFile<m-1>`, the list has at least `m` files, and these are their
/// values. No file of the run is left out, however many there are.
pub proof fn lemma_depot_files_complete(r: RecordMap, files: Seq<Seq<char>>, m: nat)
    requires
        is_depot_file_list(r, files),
        forall|i: int| 0 <= i < m ==> r.contains_key(#[trigger] depot_file_key(i as nat)),
    ensures
        m <= files.len(),
        forall|i: int| 0 <= i < m ==> files[i] == r[#[trigger] depot_file_key(i as nat)],
{
    if files.len() < m {
        let i: int = files.len() as int;
        assert(r.contains_key(depot_file_key(i as nat)));
    }
}

/// The key of the `i`-th affected file in a record of `p4 describe`:
/// `depotFile` followed by `i` in decimal.
pub open spec fn depot_file_key(i: nat) -> Seq<char> {
    indexed_key("depotFile"@, i)
}

/// `files` are the affected files of a record: the values of `depotFile0`,
/// `depotFile1`, ..., up to the first of these keys that the record lacks.
pub open spec fn is_depot_file_list(r: RecordMap, files: Seq<Seq<char>>) -> bool {
    &&& forall|i: int|
        0 <= i < files.len() ==> r.contains_key(#[trigger] depot_file_key(i as nat)) && files[i]
            == r[depot_file_key(i as nat)]
    &&& !r.contains_key(depot_file_key(files.len()))
}

/// A record has exactly one list of affected files.
pub proof fn lemma_depot_file_list_unique(r: RecordMap, a: Seq<Seq<char>>, b: Seq<Seq<char>>)
    requires
        is_depot_file_list(r, a),
        is_depot_file_list(r, b),
    ensures
        a == b,
{
    if a.len() < b.len() {
        let i: int = a.len() as int;
        assert(r.contains_key(depot_file_key(i as nat)));
        assert(i as nat == a.len());
    } else if b.len() < a.len() {
        let i: int = b.len() as int;
        assert(r.contains_key(depot_file_key(i as nat)));
        assert(i as nat == b.len());
    }
    assert forall|i: int| 0 <= i < a.len() implies a[i] == b[i] by {
        assert(r.contains_key(depot_file_key(i as nat)));
    }
    assert(a =~= b);
}

/// The affected files of a record of `p4 describe`.
fn depot_files(record: &ZtagRecord) -> (files: Vec<String>)
    ensures
        is_depot_file_list(record@, string_views(files@)),
{
    let n = record.len();
    let mut files: Vec<String> = Vec::new();
    let mut i: usize = 0;
    let ghost mut remaining = record@.dom();
    loop
        invariant
            files@.len() == i,
            record@.dom().finite(),
            n == record@.dom().len(),
            remaining.finite(),
            i + remaining.len() <= n,
            forall|j: int|
                0 <= j < i ==> record@.contains_key(#[trigger] depot_file_key(j as nat))
                    && files@[j]@ == record@[depot_file_key(j as nat)],
            forall|k: Seq<char>|
                record@.contains_key(k) && (forall|j: int|
                    0 <= j < i ==> k != #[trigger] depot_file_key(j as nat)) ==> remaining.contains(k),
        ensures
            files@.len() == i,
            forall|j: int|
                0 <= j < i ==> record@.contains_key(#[trigger] depot_file_key(j as nat))
                    && files@[j]@ == record@[depot_file_key(j as nat)],
            !record@.contains_key(depot_file_key(i as nat)),
        decreases remaining.len(),
    {
        let key = indexed_key_string("depotFile", i);
        match record.get(key.as_str()) {
            Some(f) => {
                let ghost k = depot_file_key(i as nat);
                proof {
                    assert forall|j: int| 0 <= j < i implies k != #[trigger] depot_file_key(
                        j as nat,
                    ) by {
                        if k == depot_file_key(j as nat) {
                            lemma_indexed_key_injective("depotFile"@, i as nat, j as nat);
                        }
                    }
                    assert(remaining.contains(k));
                    remaining = remaining.remove(k);
                }
                files.push(f.clone());
                i = i + 1;
                proof {
                    assert forall|kk: Seq<char>|
                        record@.contains_key(kk) && (forall|j: int|
                            0 <= j < i ==> kk != #[trigger] depot_file_key(
                                j as nat,
                            )) implies remaining.contains(kk) by {
                        assert(kk != depot_file_key((i - 1) as nat));
                    }
                }
            },
            None => {
                break ;
            },
        }
    }
    assert(string_views(files@).len() == i);
    assert forall|j: int| 0 <= j < string_views(files@).len() implies record@.contains_key(
        #[trigger] depot_file_key(j as nat),
    ) && string_views(files@)[j] == record@[depot_file_key(j as nat)] by {
        assert(files@[j]@ == record@[depot_file_key(j as nat)]);
    }
    files
}

/// `res` is the detail of change list `cl_id` that the records of
/// `p4 describe -s` give: read from the first record, with its affected
/// files; a `Process` error where there is no record.
pub open spec fn is_cl_detail_result(
    cl_id: u32,
    records: Seq<RecordMap>,
    res: Result<ChangelistDetail, P4Error>,
) -> bool {
    &&& res is Err <==> records.len() == 0
    &&& res matches Err(e) ==> (e matches P4Error::Process(m) && m@
        == "No changelist detail found"@)
    &&& res matches Ok(d) ==> {
        &&& d@.id == cl_id
        &&& d@.author == field_or_empty(records[0], "user"@)
        &&& d@.date == field_or_empty(records[0], "time"@)
        &&& d@.description == field_or_empty(records[0], "desc"@)
        &&& is_depot_file_list(records[0], d@.affected_files)
    }
}

/// The detail of change list `cl_id` in the tagged output of
/// `p4 describe -s`: read from the first record, with its affected files;
/// a `Process` error where the output holds no record.
pub fn cl_detail_from_ztag(cl_id: u32, ztag: &ZtagOutput) -> (res: Result<
    ChangelistDetail,
    P4Error,
>)
    ensures
        is_cl_detail_result(cl_id, ztag@, res),
{
    if ztag.records.len() == 0 {
        return Err(P4Error::Process(String::from_str("No changelist detail found")));
    }
    let record = &ztag.records[0];
    let affected_files = depot_files(record);
    Ok(
        ChangelistDetail {
            id: cl_id,
            author: field_or_default(record, "user"),
            date: field_or_default(record, "time"),
            description: field_or_default(record, "desc"),
            affected_files,
        },
    )
}


/// The history that the result of `p4 filelog` gives: the change lists of
/// its tagged output, or its error unchanged.
pub fn history_from_output(output: Result<String, P4Error>) -> (r: Result<Vec<Changelist>, P4Error>)
    ensures
        match output {
            Ok(text) => r matches Ok(changes) && changelist_views(changes@) == changelists_of(
                ztag_records(text@),
            ),
            Err(e) => r == Err::<Vec<Changelist>, P4Error>(e),
        },
{
    match output {
        Ok(text) => Ok(changelists_from_ztag(&parse_ztag(text.as_str()))),
        Err(e) => Err(e),
    }
}

/// The detail of change list `cl_id` that the result of `p4 describe -s`
/// gives: read from its tagged output, or its error unchanged.
pub fn cl_detail_from_output(cl_id: u32, output: Result<String, P4Error>) -> (r: Result<
    ChangelistDetail,
    P4Error,
>)
    ensures
        match output {
            Ok(text) => is_cl_detail_result(cl_id, ztag_records(text@), r),
            Err(e) => r == Err::<ChangelistDetail, P4Error>(e),
        },
{
    match output {
        Ok(text) => cl_detail_from_ztag(cl_id, &parse_ztag(text.as_str())),
        Err(e) => Err(e),
    }
}

} // verus!
