use vstd::prelude::*;

use crate::table::KeyValues;
use crate::text::{chars_of, count_of, decimal, decimal_string, parse_count};

verus! {

/// The platform and architecture of the client to fetch.
#[derive(Clone, Copy, Debug, PartialEq, Eq, Structural)]
pub enum BinaryType {
    Unspecified,
    Windows32,
    Windows64,
    Linux,
    OSX,
    WindowsCompat32,
    WindowsCompat64,
}

impl BinaryType {
    /// The numeric code that the service knows this selector by.
    pub open spec fn spec_code(self) -> u8 {
        match self {
            BinaryType::Unspecified => 0,
            BinaryType::Windows32 => 1,
            BinaryType::Windows64 => 2,
            BinaryType::Linux => 3,
            BinaryType::OSX => 4,
            BinaryType::WindowsCompat32 => 5,
            BinaryType::WindowsCompat64 => 6,
        }
    }

    /// The numeric code that the service knows this selector by.
    pub fn code(&self) -> (r: u8)
        ensures
            r == self.spec_code(),
    {
        match self {
            BinaryType::Unspecified => 0,
            BinaryType::Windows32 => 1,
            BinaryType::Windows64 => 2,
            BinaryType::Linux => 3,
            BinaryType::OSX => 4,
            BinaryType::WindowsCompat32 => 5,
            BinaryType::WindowsCompat64 => 6,
        }
    }
}

/// One entry of the manifest: a file under the cache root and its expected checksum.
#[derive(Clone, Debug)]
pub struct ClientFile {
    pub name: String,
    pub crc: String,
    pub hash: String,
}

impl View for ClientFile {
    type V = (Seq<char>, Seq<char>, Seq<char>);

    /// Name, checksum and hash, in that order.
    open spec fn view(&self) -> (Seq<char>, Seq<char>, Seq<char>) {
        (self.name@, self.crc@, self.hash@)
    }
}

/// The parsed remote configuration.
pub struct JavConfig {
    pub binary_type: BinaryType,
    pub properties: KeyValues,
    pub messages: KeyValues,
    pub params: KeyValues,
    pub files: Vec<ClientFile>,
}

/// What a configuration holds, as mathematical values.
pub struct ConfigModel {
    pub binary_type: BinaryType,
    pub properties: Map<Seq<char>, Seq<char>>,
    pub messages: Map<Seq<char>, Seq<char>>,
    pub params: Map<Seq<char>, Seq<char>>,
    pub files: Seq<(Seq<char>, Seq<char>, Seq<char>)>,
}

impl View for JavConfig {
    type V = ConfigModel;

    open spec fn view(&self) -> ConfigModel {
        ConfigModel {
            binary_type: self.binary_type,
            properties: self.properties@,
            messages: self.messages@,
            params: self.params@,
            files: self.files@.map_values(|f: ClientFile| f@),
        }
    }
}

/// Why a configuration text was refused.
#[derive(Clone, Debug)]
pub enum ConfigError {
    /// The line with this index (counted from 0) holds no `=`.
    MalformedLine { line: usize },
    /// The manifest names a file but this key is absent.
    MissingField { key: String },
}

/// Why a configuration text was refused, as mathematical values.
pub enum ParseFailure {
    MalformedLine(nat),
    MissingField(Seq<char>),
}

impl View for ConfigError {
    type V = ParseFailure;

    open spec fn view(&self) -> ParseFailure {
        match self {
            ConfigError::MalformedLine { line } => ParseFailure::MalformedLine(*line as nat),
            ConfigError::MissingField { key } => ParseFailure::MissingField(key@),
        }
    }
}

/// The three mappings that the lines of a configuration fill: general
/// properties, messages and launch parameters.
pub type Tables = (Map<Seq<char>, Seq<char>>, Map<Seq<char>, Seq<char>>, Map<Seq<char>, Seq<char>>);

/// Which mapping a line goes to.
#[derive(Clone, Copy, Debug, PartialEq, Eq, Structural)]
pub enum Section {
    Properties,
    Messages,
    Params,
}

/// The pieces of `s` between newline characters (one more than there are newlines).
pub open spec fn pieces(s: Seq<char>) -> Seq<Seq<char>>
    decreases s.len(),
{
    if s.len() == 0 {
        seq![Seq::empty()]
    } else if s.last() == '\n' {
        pieces(s.drop_last()).push(Seq::empty())
    } else {
        let p = pieces(s.drop_last());
        p.update(p.len() - 1, p.last().push(s.last()))
    }
}

/// A line without the carriage return that may end it.
pub open spec fn strip_cr(l: Seq<char>) -> Seq<char> {
    if l.len() > 0 && l.last() == '\r' {
        l.drop_last()
    } else {
        l
    }
}

/// Whether `i` is the index of the first `=` in `s`.
pub open spec fn first_eq(s: Seq<char>, i: int) -> bool {
    0 <= i < s.len() && s[i] == '=' && forall|j: int| 0 <= j < i ==> s[j] != '='
}

/// `s` split once at its first `=`: the key before it and the value after it.
pub open spec fn key_value(s: Seq<char>) -> Option<(Seq<char>, Seq<char>)> {
    if exists|i: int| first_eq(s, i) {
        let i = choose|i: int| first_eq(s, i);
        Some((s.take(i), s.skip(i + 1)))
    } else {
        None
    }
}

pub open spec fn msg_prefix() -> Seq<char> {
    seq!['m', 's', 'g', '=']
}

pub open spec fn param_prefix() -> Seq<char> {
    seq!['p', 'a', 'r', 'a', 'm', '=']
}

/// Whether `s` begins with `p`.
pub open spec fn has_prefix(s: Seq<char>, p: Seq<char>) -> bool {
    s.len() >= p.len() && s.take(p.len() as int) == p
}

/// The mapping, key and value that a non-empty line gives, or `None` where the
/// line, after its prefix, holds no `=`.
pub open spec fn line_entry(l: Seq<char>) -> Option<(Section, Seq<char>, Seq<char>)> {
    let (sec, rest) = if has_prefix(l, msg_prefix()) {
        (Section::Messages, l.skip(4))
    } else if has_prefix(l, param_prefix()) {
        (Section::Params, l.skip(6))
    } else {
        (Section::Properties, l)
    };
    match key_value(rest) {
        Some((k, v)) => Some((sec, k, v)),
        None => None,
    }
}

/// `t` with `v` stored under `k` in the mapping `sec`.
pub open spec fn add_entry(t: Tables, sec: Section, k: Seq<char>, v: Seq<char>) -> Tables {
    match sec {
        Section::Properties => (t.0.insert(k, v), t.1, t.2),
        Section::Messages => (t.0, t.1.insert(k, v), t.2),
        Section::Params => (t.0, t.1, t.2.insert(k, v)),
    }
}

/// Reading the line with index `idx` into `t`: empty lines are passed over,
/// a line without `=` is refused with its index.
pub open spec fn read_line(t: Tables, line: Seq<char>, idx: nat) -> Result<Tables, nat> {
    let l = strip_cr(line);
    if l.len() == 0 {
        Ok(t)
    } else {
        match line_entry(l) {
            Some((sec, k, v)) => Ok(add_entry(t, sec, k, v)),
            None => Err(idx),
        }
    }
}

/// Reading all of `ls` in order, from empty mappings.
pub open spec fn read_lines(ls: Seq<Seq<char>>) -> Result<Tables, nat>
    decreases ls.len(),
{
    if ls.len() == 0 {
        Ok((Map::empty(), Map::empty(), Map::empty()))
    } else {
        match read_lines(ls.drop_last()) {
            Ok(t) => read_line(t, ls.last(), (ls.len() - 1) as nat),
            Err(e) => Err(e),
        }
    }
}

pub open spec fn name_key(i: nat) -> Seq<char> {
    "download_name_"@ + decimal(i)
}

pub open spec fn crc_key(i: nat) -> Seq<char> {
    "download_crc_"@ + decimal(i)
}

pub open spec fn hash_key(i: nat) -> Seq<char> {
    "download_hash_"@ + decimal(i)
}

/// The number of manifest entries that the properties announce.
pub open spec fn binary_count(props: Map<Seq<char>, Seq<char>>) -> nat {
    if props.contains_key("binary_count"@) {
        count_of(props["binary_count"@])
    } else {
        0
    }
}

/// Moving manifest entries `0..n` out of `props`, in order: the files, and the
/// properties left; or the first key found absent.
pub open spec fn extract(props: Map<Seq<char>, Seq<char>>, n: nat) -> Result<
    (Seq<(Seq<char>, Seq<char>, Seq<char>)>, Map<Seq<char>, Seq<char>>),
    Seq<char>,
>
    decreases n,
{
    if n == 0 {
        Ok((Seq::empty(), props))
    } else {
        let i = (n - 1) as nat;
        match extract(props, i) {
            Err(k) => Err(k),
            Ok((files, p)) => {
                if !p.contains_key(name_key(i)) {
                    Err(name_key(i))
                } else if !p.contains_key(crc_key(i)) {
                    Err(crc_key(i))
                } else if !p.contains_key(hash_key(i)) {
                    Err(hash_key(i))
                } else {
                    Ok(
                        (
                            files.push((p[name_key(i)], p[crc_key(i)], p[hash_key(i)])),
                            p.remove(name_key(i)).remove(crc_key(i)).remove(hash_key(i)),
                        ),
                    )
                }
            },
        }
    }
}

/// The configuration that a text describes, or why it is refused.
pub open spec fn parse_model(raw: Seq<char>) -> Result<ConfigModel, ParseFailure> {
    match read_lines(pieces(raw)) {
        Err(i) => Err(ParseFailure::MalformedLine(i)),
        Ok(t) => match extract(t.0, binary_count(t.0)) {
            Err(k) => Err(ParseFailure::MissingField(k)),
            Ok((files, props)) => Ok(
                ConfigModel {
                    binary_type: BinaryType::Unspecified,
                    properties: props,
                    messages: t.1,
                    params: t.2,
                    files,
                },
            ),
        },
    }
}

/// The outcome of a parse, as mathematical values.
pub open spec fn parse_outcome(r: Result<JavConfig, ConfigError>) -> Result<ConfigModel, ParseFailure> {
    match r {
        Ok(c) => Ok(c@),
        Err(e) => Err(e@),
    }
}

/// Splits `line` once at its first `=` into key and value; `None` where it holds none.
pub fn split_key_value(line: &str) -> (r: Option<(String, String)>)
    ensures
        match key_value(line@) {
            Some((k, v)) => r is Some && (r->0).0@ == k && (r->0).1@ == v,
            None => r is None,
        },
{
    let cs = chars_of(line);
    let mut i: usize = 0;
    while i < cs.len()
        invariant
            i <= cs.len(),
            cs@ == line@,
            forall|j: int| 0 <= j < i ==> cs@[j] != '=',
        decreases cs.len() - i,
    {
        if cs[i] == '=' {
            assert(first_eq(line@, i as int));
            let ghost c = choose|c: int| first_eq(line@, c);
            assert(c == i);
            let key = String::from_str(line.substring_char(0, i));
            let value = String::from_str(line.substring_char(i + 1, cs.len()));
            assert(line@.subrange(0, i as int) =~= line@.take(i as int));
            assert(line@.subrange(i + 1, cs.len() as int) =~= line@.skip(i + 1));
            return Some((key, value));
        }
        i = i + 1;
    }
    None
}

/// Reads one line of the configuration, with index `idx`, into the three mappings.
fn read_line_into(
    line: &str,
    idx: usize,
    properties: &mut KeyValues,
    messages: &mut KeyValues,
    params: &mut KeyValues,
) -> (r: Result<(), ConfigError>)
    ensures
        match read_line((old(properties)@, old(messages)@, old(params)@), line@, idx as nat) {
            Ok(t) => r is Ok && (final(properties)@, final(messages)@, final(params)@) == t,
            Err(i) => r is Err && r->Err_0@ == ParseFailure::MalformedLine(i),
        },
{
    let cs = chars_of(line);
    let mut end = cs.len();
    if end > 0 && cs[end - 1] == '\r' {
        end = end - 1;
    }
    let ghost l = strip_cr(line@);
    assert(l =~= line@.take(end as int));
    if end == 0 {
        return Ok(());
    }
    let is_msg = end >= 4 && cs[0] == 'm' && cs[1] == 's' && cs[2] == 'g' && cs[3] == '=';
    let is_param = !is_msg && end >= 6 && cs[0] == 'p' && cs[1] == 'a' && cs[2] == 'r' && cs[3] == 'a'
        && cs[4] == 'm' && cs[5] == '=';
    assert(is_msg == has_prefix(l, msg_prefix())) by {
        if end >= 4 {
            assert(l.take(4) =~= seq![l[0], l[1], l[2], l[3]]);
        }
    }
    assert(!is_msg ==> is_param == has_prefix(l, param_prefix())) by {
        if end >= 6 {
            assert(l.take(6) =~= seq![l[0], l[1], l[2], l[3], l[4], l[5]]);
        }
    }
    let skip: usize = if is_msg {
        4
    } else if is_param {
        6
    } else {
        0
    };
    let rest = line.substring_char(skip, end);
    assert(rest@ =~= l.skip(skip as int));
    match split_key_value(rest) {
        None => Err(ConfigError::MalformedLine { line: idx }),
        Some((key, value)) => {
            if is_msg {
                messages.insert(key, value);
            } else if is_param {
                params.insert(key, value);
            } else {
                properties.insert(key, value);
            }
            Ok(())
        },
    }
}

proof fn lemma_pieces_step(s: Seq<char>, i: int)
    requires
        0 <= i < s.len(),
    ensures
        pieces(s.take(i + 1)) == if s[i] == '\n' {
            pieces(s.take(i)).push(Seq::empty())
        } else {
            let p = pieces(s.take(i));
            p.update(p.len() - 1, p.last().push(s[i]))
        },
{
    assert(s.take(i + 1).drop_last() =~= s.take(i));
}

proof fn lemma_pieces_prefix(s: Seq<char>, i: int, j: int)
    requires
        0 <= i <= j <= s.len(),
    ensures
        pieces(s.take(i)).len() >= 1,
        pieces(s.take(j)).len() >= pieces(s.take(i)).len(),
        pieces(s.take(j)).take(pieces(s.take(i)).len() - 1) == pieces(s.take(i)).drop_last(),
    decreases j - i,
{
    if i == j {
        lemma_pieces_nonempty(s.take(i));
        assert(pieces(s.take(j)).take(pieces(s.take(i)).len() - 1) =~= pieces(s.take(i)).drop_last());
    } else {
        lemma_pieces_prefix(s, i, j - 1);
        lemma_pieces_step(s, j - 1);
        lemma_pieces_nonempty(s.take(j - 1));
        let p = pieces(s.take(i));
        let q = pieces(s.take(j - 1));
        let r = pieces(s.take(j));
        assert(r.take(p.len() - 1) =~= q.take(p.len() - 1));
    }
}

proof fn lemma_pieces_nonempty(s: Seq<char>)
    ensures
        pieces(s).len() >= 1,
    decreases s.len(),
{
    if s.len() > 0 {
        lemma_pieces_nonempty(s.drop_last());
    }
}

proof fn lemma_read_lines_err(ls: Seq<Seq<char>>, m: int)
    requires
        0 <= m <= ls.len(),
        read_lines(ls.take(m)) is Err,
    ensures
        read_lines(ls) == read_lines(ls.take(m)),
    decreases ls.len() - m,
{
    if m < ls.len() {
        assert(ls.take(m + 1).drop_last() =~= ls.take(m));
        lemma_read_lines_err(ls, m + 1);
    } else {
        assert(ls.take(m) =~= ls);
    }
}

proof fn lemma_extract_err(props: Map<Seq<char>, Seq<char>>, m: nat, n: nat)
    requires
        m <= n,
        extract(props, m) is Err,
    ensures
        extract(props, n) == extract(props, m),
    decreases n - m,
{
    if m < n {
        lemma_extract_err(props, m, (n - 1) as nat);
    }
}

proof fn lemma_keys_differ(i: nat)
    ensures
        name_key(i) != crc_key(i),
        name_key(i) != hash_key(i),
        crc_key(i) != hash_key(i),
{
    reveal_strlit("download_name_");
    reveal_strlit("download_crc_");
    reveal_strlit("download_hash_");
    assert(name_key(i)[9] != crc_key(i)[9]);
    assert(name_key(i)[9] != hash_key(i)[9]);
    assert(crc_key(i)[9] != hash_key(i)[9]);
}

/// Parses configuration text: each non-empty line is `key=value`, split at the
/// first `=`; a key that begins with `msg=` or `param=` goes, without that
/// prefix, to the messages or the parameters, any other to the properties.
/// Then the `binary_count` manifest entries move from the properties to the files.
pub fn parse(raw: &str) -> (r: Result<JavConfig, ConfigError>)
    ensures
        parse_outcome(r) == parse_model(raw@),
{
    let cs = chars_of(raw);
    let mut properties = KeyValues::new();
    let mut messages = KeyValues::new();
    let mut params = KeyValues::new();
    let ghost done: Seq<Seq<char>> = Seq::empty();
    let mut start: usize = 0;
    let mut line_no: usize = 0;
    let mut i: usize = 0;
    assert(raw@.take(0) =~= Seq::<char>::empty());
    assert(raw@.subrange(0, 0) =~= Seq::<char>::empty());
    while i < cs.len()
        invariant
            cs@ == raw@,
            start <= i <= cs.len(),
            line_no <= i,
            line_no == done.len(),
            pieces(raw@.take(i as int)) == done.push(raw@.subrange(start as int, i as int)),
            read_lines(done) == Ok::<Tables, nat>((properties@, messages@, params@)),
        decreases cs.len() - i,
    {
        proof {
            lemma_pieces_step(raw@, i as int);
        }
        if cs[i] == '\n' {
            let line = raw.substring_char(start, i);
            let ghost before = done;
            proof {
                done = done.push(line@);
                assert(done.drop_last() =~= before);
            }
            match read_line_into(line, line_no, &mut properties, &mut messages, &mut params) {
                Err(e) => {
                    proof {
                        lemma_pieces_prefix(raw@, i + 1, raw@.len() as int);
                        assert(raw@.take(raw@.len() as int) =~= raw@);
                        let all = pieces(raw@);
                        assert(pieces(raw@.take(i + 1)).drop_last() =~= done);
                        assert(all.take(done.len() as int) =~= done);
                        lemma_read_lines_err(all, done.len() as int);
                    }
                    return Err(e);
                },
                Ok(()) => {},
            }
            start = i + 1;
            line_no = line_no + 1;
            assert(raw@.subrange(i + 1, i + 1) =~= Seq::<char>::empty());
            assert(pieces(raw@.take(i + 1)) =~= done.push(raw@.subrange(start as int, i + 1)));
        } else {
            assert(raw@.subrange(start as int, i as int).push(raw@[i as int]) =~= raw@.subrange(
                start as int,
                i + 1,
            ));
            assert(pieces(raw@.take(i + 1)) =~= done.push(raw@.subrange(start as int, i + 1)));
        }
        i = i + 1;
    }
    let line = raw.substring_char(start, cs.len());
    let ghost before = done;
    proof {
        assert(raw@.take(cs.len() as int) =~= raw@);
        done = done.push(line@);
        assert(done.drop_last() =~= before);
    }
    match read_line_into(line, line_no, &mut properties, &mut messages, &mut params) {
        Err(e) => {
            return Err(e);
        },
        Ok(()) => {},
    }
    let ghost tables = (properties@, messages@, params@);
    let count_key = String::from_str("binary_count");
    let count = match properties.get(&count_key) {
        Some(text) => parse_count(text.as_str()),
        None => 0,
    };
    let mut files: Vec<ClientFile> = Vec::new();
    assert(files@.map_values(|f: ClientFile| f@) =~= Seq::empty());
    for n in 0..count
        invariant
            count as nat == binary_count(tables.0),
            read_lines(pieces(raw@)) == Ok::<Tables, nat>(tables),
            messages@ == tables.1,
            params@ == tables.2,
            extract(tables.0, n as nat) == Ok::<_, Seq<char>>(
                (files@.map_values(|f: ClientFile| f@), properties@),
            ),
    {
        let digits = decimal_string(n);
        let mut key_name = String::from_str("download_name_");
        key_name.append(digits.as_str());
        let mut key_crc = String::from_str("download_crc_");
        key_crc.append(digits.as_str());
        let mut key_hash = String::from_str("download_hash_");
        key_hash.append(digits.as_str());
        let ghost before = files@.map_values(|f: ClientFile| f@);
        proof {
            lemma_keys_differ(n as nat);
        }
        let name = match properties.remove(&key_name) {
            Some(v) => v,
            None => {
                proof {
                    assert(key_name@ == name_key(n as nat));
                    lemma_extract_err(tables.0, (n + 1) as nat, count as nat);
                }
                return Err(ConfigError::MissingField { key: key_name });
            },
        };
        let crc = match properties.remove(&key_crc) {
            Some(v) => v,
            None => {
                proof {
                    assert(key_crc@ == crc_key(n as nat));
                    lemma_extract_err(tables.0, (n + 1) as nat, count as nat);
                }
                return Err(ConfigError::MissingField { key: key_crc });
            },
        };
        let hash = match properties.remove(&key_hash) {
            Some(v) => v,
            None => {
                proof {
                    assert(key_hash@ == hash_key(n as nat));
                    lemma_extract_err(tables.0, (n + 1) as nat, count as nat);
                }
                return Err(ConfigError::MissingField { key: key_hash });
            },
        };
        files.push(ClientFile { name, crc, hash });
        assert(files@.map_values(|f: ClientFile| f@) =~= before.push((name@, crc@, hash@)));
    }
    Ok(JavConfig { binary_type: BinaryType::Unspecified, properties, messages, params, files })
}

impl JavConfig {
    /// The base of the download addresses: the `codebase` property followed by
    /// `client?binaryType=` and the selector's code; `None` without a `codebase`.
    pub fn get_base_url(&self) -> (r: Option<String>)
        ensures
            r is Some <==> self.properties@.contains_key("codebase"@),
            r is Some ==> r->0@ == self.properties@["codebase"@] + "client?binaryType="@ + decimal(
                self.binary_type.spec_code() as nat,
            ),
    {
        let key = String::from_str("codebase");
        match self.properties.get(&key) {
            None => None,
            Some(codebase) => {
                let mut url = codebase.clone();
                url.append("client?binaryType=");
                let code = decimal_string(self.binary_type.code() as u32);
                url.append(code.as_str());
                Some(url)
            },
        }
    }
}

/// The properties that the lines of `raw` give, before the manifest entries
/// move out of them.
pub open spec fn raw_properties(raw: Seq<char>) -> Map<Seq<char>, Seq<char>> {
    read_lines(pieces(raw))->Ok_0.0
}

/// Whether `k` names a field of one of the manifest entries `0..n`.
pub open spec fn is_manifest_key(k: Seq<char>, n: nat) -> bool {
    exists|i: nat| i < n && (k == name_key(i) || k == crc_key(i) || k == hash_key(i))
}

/// Parsing is deterministic: two parses of one text give the same
/// configuration, files in the same order, or the same error.
pub proof fn lemma_parse_deterministic(
    raw: Seq<char>,
    first: Result<JavConfig, ConfigError>,
    second: Result<JavConfig, ConfigError>,
)
    requires
        parse_outcome(first) == parse_model(raw),
        parse_outcome(second) == parse_model(raw),
    ensures
        parse_outcome(first) == parse_outcome(second),
{
}

proof fn lemma_extract(props: Map<Seq<char>, Seq<char>>, n: nat)
    requires
        extract(props, n) is Ok,
    ensures
        ({
            let (files, rest) = extract(props, n)->Ok_0;
            &&& files.len() == n
            &&& forall|i: nat| #![trigger name_key(i)] i < n ==> files[i as int] == (props[name_key(i)], props[crc_key(i)], props[hash_key(i)])
            &&& forall|i: nat| #![trigger name_key(i)] i < n ==> !rest.contains_key(name_key(i)) && !rest.contains_key(crc_key(i)) && !rest.contains_key(hash_key(i))
            &&& forall|k: Seq<char>| #[trigger] rest.contains_key(k) ==> props.contains_key(k) && rest[k] == props[k]
            &&& forall|k: Seq<char>| !is_manifest_key(k, n) && #[trigger] props.contains_key(k) ==> rest.contains_key(k)
        }),
    decreases n,
{
    if n > 0 {
        let i = (n - 1) as nat;
        lemma_extract(props, i);
        let (files, p) = extract(props, i)->Ok_0;
        let (files2, rest) = extract(props, n)->Ok_0;
        assert forall|k: Seq<char>| !is_manifest_key(k, n) && #[trigger] props.contains_key(k) implies rest.contains_key(k) by {
            if !is_manifest_key(k, i) {
                assert(p.contains_key(k));
            } else {
                let j = choose|j: nat| j < i && (k == name_key(j) || k == crc_key(j) || k == hash_key(j));
                assert(j < n && (k == name_key(j) || k == crc_key(j) || k == hash_key(j)));
            }
        }
        assert forall|j: nat| #![trigger name_key(j)] j < n implies files2[j as int] == (props[name_key(j)], props[crc_key(j)], props[hash_key(j)]) by {
            if j < i {
                assert(files2[j as int] == files[j as int]);
            }
        }
        assert(files2.len() == n);
        assert forall|j: nat| #![trigger name_key(j)] j < n implies !rest.contains_key(name_key(j))
            && !rest.contains_key(crc_key(j)) && !rest.contains_key(hash_key(j)) by {
            if j < i {
                assert(!p.contains_key(name_key(j)));
            }
        }
        assert forall|k: Seq<char>| #[trigger] rest.contains_key(k) implies props.contains_key(k)
            && rest[k] == props[k] by {
            assert(p.contains_key(k));
        }
    }
}

/// Parsing moves the manifest out of the properties: the files are the
/// announced entries in ascending order, built from the properties that the
/// lines give; none of their keys is left among the properties, and every
/// other property stays with its value.
pub proof fn lemma_manifest_moved(raw: Seq<char>)
    requires
        parse_model(raw) is Ok,
    ensures
        ({
            let m = parse_model(raw)->Ok_0;
            let props = raw_properties(raw);
            let n = binary_count(props);
            &&& m.files.len() == n
            &&& forall|i: nat| #![trigger name_key(i)] i < n ==> m.files[i as int] == (props[name_key(i)], props[crc_key(i)], props[hash_key(i)])
            &&& forall|i: nat| #![trigger name_key(i)] i < n ==> !m.properties.contains_key(name_key(i)) && !m.properties.contains_key(crc_key(i)) && !m.properties.contains_key(hash_key(i))
            &&& forall|k: Seq<char>| !is_manifest_key(k, n) ==> (#[trigger] m.properties.contains_key(k) <==> props.contains_key(k))
            &&& forall|k: Seq<char>| #[trigger] m.properties.contains_key(k) ==> m.properties[k] == props[k]
        }),
{
    let props = raw_properties(raw);
    lemma_extract(props, binary_count(props));
}

/// A line `msg=k=v` stores `v` under `k` among the messages, a line
/// `param=k=v` stores it among the parameters, and any other line `k=v`
/// among the properties; the key ends at the first `=` after the prefix.
pub proof fn lemma_prefix_classification(t: Tables, l: Seq<char>, idx: nat, k: Seq<char>, v: Seq<char>)
    requires
        l.len() > 0,
        l.last() != '\r',
    ensures
        has_prefix(l, msg_prefix()) && key_value(l.skip(4)) == Some((k, v)) ==> read_line(t, l, idx)
            == Ok::<Tables, nat>((t.0, t.1.insert(k, v), t.2)),
        !has_prefix(l, msg_prefix()) && has_prefix(l, param_prefix()) && key_value(l.skip(6)) == Some(
            (k, v),
        ) ==> read_line(t, l, idx) == Ok::<Tables, nat>((t.0, t.1, t.2.insert(k, v))),
        !has_prefix(l, msg_prefix()) && !has_prefix(l, param_prefix()) && key_value(l) == Some((k, v))
            ==> read_line(t, l, idx) == Ok::<Tables, nat>((t.0.insert(k, v), t.1, t.2)),
{
}

} // verus!
