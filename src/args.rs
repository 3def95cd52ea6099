use vstd::prelude::*;

use crate::expand::texts;

verus! {

/// Addresses sampled when `--count` is not given.
pub const DEFAULT_COUNT: usize = 150;

/// Results kept when `--max-valid-ips` is not given.
pub const DEFAULT_MAX_VALID_IPS: usize = 5;

/// Port probed when `--port` is not given.
pub const DEFAULT_PORT: u16 = 443;

/// The run's settings, as read from the command line.
pub struct Args {
    /// Number of addresses to sample and probe (`-c`, `--count`).
    pub count: usize,
    /// Comma-separated prefixes of address text to leave out (`--skip-prefixes`).
    pub skip_prefixes: Option<String>,
    /// Where to write the results (`-f`, `--file-path`).
    pub file_path: Option<String>,
    /// Verbosity of the log (`--log-level`), "info" by default.
    pub log_level: String,
    /// Host name whose certificate each handshake verifies (`--domain`, required).
    pub domain: String,
    /// Port of each connection attempt (`--port`).
    pub port: u16,
    /// Number of results to keep (`--max-valid-ips`).
    pub max_valid_ips: usize,
}

/// The ways a command line can be refused.
#[derive(Clone, Copy, PartialEq, Eq, Structural, Debug)]
pub enum ErrorKind {
    /// A token that names no option.
    UnknownArgument,
    /// An option at the end of the line, without its value.
    MissingValue,
    /// An option given twice.
    ArgumentConflict,
    /// No `--domain`.
    MissingRequiredArgument,
    /// A number option whose value is not a number in range.
    ValueValidation,
}

/// A refused command line.
#[derive(Clone, Copy, PartialEq, Eq, Structural, Debug)]
pub struct ArgsError {
    pub kind: ErrorKind,
}

impl ArgsError {
    /// What was wrong.
    pub fn kind(&self) -> (r: ErrorKind)
        ensures
            r == self.kind,
    {
        self.kind
    }
}

/// The options of the command line.
#[derive(Clone, Copy, PartialEq, Eq, Structural, Debug)]
pub enum Opt {
    Count,
    SkipPrefixes,
    FilePath,
    LogLevel,
    Domain,
    Port,
    MaxValidIps,
}

/// The option a token names, if any.
pub open spec fn opt_of(t: Seq<char>) -> Option<Opt> {
    if t == "-c"@ || t == "--count"@ {
        Some(Opt::Count)
    } else if t == "--skip-prefixes"@ {
        Some(Opt::SkipPrefixes)
    } else if t == "-f"@ || t == "--file-path"@ {
        Some(Opt::FilePath)
    } else if t == "--log-level"@ {
        Some(Opt::LogLevel)
    } else if t == "--domain"@ {
        Some(Opt::Domain)
    } else if t == "--port"@ {
        Some(Opt::Port)
    } else if t == "--max-valid-ips"@ {
        Some(Opt::MaxValidIps)
    } else {
        None
    }
}

/// Whether every character is an ASCII digit.
pub open spec fn all_digits(s: Seq<char>) -> bool {
    forall|k: int| 0 <= k < s.len() ==> '0' <= #[trigger] s[k] <= '9'
}

/// The number that a string of decimal digits denotes.
pub open spec fn digits_value(s: Seq<char>) -> nat
    decreases s.len(),
{
    if s.len() == 0 {
        0
    } else {
        digits_value(s.drop_last()) * 10 + (s.last() as nat - '0' as nat) as nat
    }
}

/// The value of a number option: one or more decimal digits, at most `max`.
pub open spec fn number_of(s: Seq<char>, max: nat) -> Option<nat> {
    if s.len() > 0 && all_digits(s) && digits_value(s) <= max {
        Some(digits_value(s))
    } else {
        None
    }
}

/// The options seen so far, each with the value it was given.
pub struct Seen {
    pub count: Option<nat>,
    pub skip_prefixes: Option<Seq<char>>,
    pub file_path: Option<Seq<char>>,
    pub log_level: Option<Seq<char>>,
    pub domain: Option<Seq<char>>,
    pub port: Option<nat>,
    pub max_valid_ips: Option<nat>,
}

/// No option seen yet.
pub open spec fn nothing_seen() -> Seen {
    Seen {
        count: None,
        skip_prefixes: None,
        file_path: None,
        log_level: None,
        domain: None,
        port: None,
        max_valid_ips: None,
    }
}

/// Whether option `o` has been seen.
pub open spec fn seen(s: Seen, o: Opt) -> bool {
    match o {
        Opt::Count => s.count is Some,
        Opt::SkipPrefixes => s.skip_prefixes is Some,
        Opt::FilePath => s.file_path is Some,
        Opt::LogLevel => s.log_level is Some,
        Opt::Domain => s.domain is Some,
        Opt::Port => s.port is Some,
        Opt::MaxValidIps => s.max_valid_ips is Some,
    }
}

/// Records value `v` for option `o`; nothing when a number option's value is
/// not a number in range.
pub open spec fn record(s: Seen, o: Opt, v: Seq<char>) -> Option<Seen> {
    match o {
        Opt::Count => match number_of(v, usize::MAX as nat) {
            Some(n) => Some(Seen { count: Some(n), ..s }),
            None => None,
        },
        Opt::SkipPrefixes => Some(Seen { skip_prefixes: Some(v), ..s }),
        Opt::FilePath => Some(Seen { file_path: Some(v), ..s }),
        Opt::LogLevel => Some(Seen { log_level: Some(v), ..s }),
        Opt::Domain => Some(Seen { domain: Some(v), ..s }),
        Opt::Port => match number_of(v, u16::MAX as nat) {
            Some(n) => Some(Seen { port: Some(n), ..s }),
            None => None,
        },
        Opt::MaxValidIps => match number_of(v, usize::MAX as nat) {
            Some(n) => Some(Seen { max_valid_ips: Some(n), ..s }),
            None => None,
        },
    }
}

/// Reads the tokens after the program name as option and value pairs, from
/// the left; the first fault decides the error.
pub open spec fn scan(ts: Seq<Seq<char>>, s: Seen) -> Result<Seen, ErrorKind>
    decreases ts.len(),
{
    if ts.len() == 0 {
        Ok(s)
    } else {
        match opt_of(ts[0]) {
            None => Err(ErrorKind::UnknownArgument),
            Some(o) => if ts.len() < 2 {
                Err(ErrorKind::MissingValue)
            } else if seen(s, o) {
                Err(ErrorKind::ArgumentConflict)
            } else {
                match record(s, o, ts[1]) {
                    None => Err(ErrorKind::ValueValidation),
                    Some(n) => scan(ts.skip(2), n),
                }
            },
        }
    }
}

/// The tokens after the program name.
pub open spec fn operands(argv: Seq<&str>) -> Seq<Seq<char>> {
    if argv.len() == 0 {
        Seq::empty()
    } else {
        argv.skip(1).map_values(|t: &str| t@)
    }
}

/// Whether `a` holds what was seen, with the defaults for the rest.
pub open spec fn settles(a: Args, s: Seen) -> bool {
    &&& a.count as nat == (if let Some(n) = s.count { n } else { DEFAULT_COUNT as nat })
    &&& (if let Some(v) = s.skip_prefixes { a.skip_prefixes matches Some(x) && x@ == v } else { a.skip_prefixes is None })
    &&& (if let Some(v) = s.file_path { a.file_path matches Some(x) && x@ == v } else { a.file_path is None })
    &&& a.log_level@ == (if let Some(v) = s.log_level { v } else { "info"@ })
    &&& s.domain matches Some(v) && a.domain@ == v
    &&& a.port as nat == (if let Some(n) = s.port { n } else { DEFAULT_PORT as nat })
    &&& a.max_valid_ips as nat == (if let Some(n) = s.max_valid_ips { n } else { DEFAULT_MAX_VALID_IPS as nat })
}

/// Whether two texts are the same.
fn same_text(a: &str, b: &str) -> (r: bool)
    ensures
        r == (a@ == b@),
{
    let n = a.unicode_len();
    if n != b.unicode_len() {
        return false;
    }
    let mut i: usize = 0;
    while i < n
        invariant
            n == a@.len() == b@.len(),
            i <= n,
            a@.take(i as int) == b@.take(i as int),
        decreases n - i,
    {
        if a.get_char(i) != b.get_char(i) {
            proof {
                assert(a@[i as int] != b@[i as int]);
            }
            return false;
        }
        i = i + 1;
        proof {
            assert(a@.take(i as int) =~= a@.take(i - 1).push(a@[i - 1]));
            assert(b@.take(i as int) =~= b@.take(i - 1).push(b@[i - 1]));
        }
    }
    proof {
        assert(a@.take(n as int) =~= a@);
        assert(b@.take(n as int) =~= b@);
    }
    true
}

/// The option a token names, if any.
fn opt_from(t: &str) -> (r: Option<Opt>)
    ensures
        r == opt_of(t@),
{
    if same_text(t, "-c") || same_text(t, "--count") {
        Some(Opt::Count)
    } else if same_text(t, "--skip-prefixes") {
        Some(Opt::SkipPrefixes)
    } else if same_text(t, "-f") || same_text(t, "--file-path") {
        Some(Opt::FilePath)
    } else if same_text(t, "--log-level") {
        Some(Opt::LogLevel)
    } else if same_text(t, "--domain") {
        Some(Opt::Domain)
    } else if same_text(t, "--port") {
        Some(Opt::Port)
    } else if same_text(t, "--max-valid-ips") {
        Some(Opt::MaxValidIps)
    } else {
        None
    }
}

/// A prefix of a digit string denotes no more than the whole string.
proof fn lemma_value_grows(s: Seq<char>, i: int)
    requires
        all_digits(s),
        0 <= i <= s.len(),
    ensures
        digits_value(s.take(i)) <= digits_value(s),
    decreases s.len(),
{
    if i == s.len() {
        assert(s.take(i) =~= s);
    } else {
        let d = s.drop_last();
        assert(all_digits(d)) by {
            assert forall|k: int| 0 <= k < d.len() implies '0' <= #[trigger] d[k] <= '9' by {
                assert(d[k] == s[k]);
            }
        }
        lemma_value_grows(d, i);
        assert(d.take(i) =~= s.take(i));
    }
}

/// Reads a number option's value: one or more decimal digits, at most `max`.
fn parse_number(t: &str, max: u64) -> (r: Option<u64>)
    ensures
        r matches Some(n) ==> number_of(t@, max as nat) == Some(n as nat),
        r is None ==> number_of(t@, max as nat) is None,
{
    let len = t.unicode_len();
    if len == 0 {
        return None;
    }
    let mut v: u64 = 0;
    let mut i: usize = 0;
    while i < len
        invariant
            len == t@.len(),
            i <= len,
            v <= max,
            v as nat == digits_value(t@.take(i as int)),
            all_digits(t@.take(i as int)),
        decreases len - i,
    {
        let c = t.get_char(i);
        if c < '0' || c > '9' {
            proof {
                assert(!all_digits(t@)) by {
                    assert(t@[i as int] == c);
                }
            }
            return None;
        }
        let d: u64 = (c as u32 - '0' as u32) as u64;
        let w: u128 = v as u128 * 10 + d as u128;
        proof {
            let p = t@.take(i + 1);
            assert(p.drop_last() =~= t@.take(i as int));
            assert(p.last() == c);
            assert(all_digits(p)) by {
                assert forall|k: int| 0 <= k < p.len() implies '0' <= #[trigger] p[k] <= '9' by {
                    if k < i {
                        assert(p[k] == t@.take(i as int)[k]);
                    }
                }
            }
        }
        if w > max as u128 {
            proof {
                if all_digits(t@) {
                    lemma_value_grows(t@, i + 1);
                }
            }
            return None;
        }
        v = w as u64;
        i = i + 1;
    }
    proof {
        assert(t@.take(len as int) =~= t@);
    }
    Some(v)
}

/// The options found so far, as values.
struct Found {
    count: Option<usize>,
    skip_prefixes: Option<String>,
    file_path: Option<String>,
    log_level: Option<String>,
    domain: Option<String>,
    port: Option<u16>,
    max_valid_ips: Option<usize>,
}

/// The text held in an optional string.
spec fn opt_text(o: Option<String>) -> Option<Seq<char>> {
    match o {
        Some(s) => Some(s@),
        None => None,
    }
}

/// A number held in an optional integer.
spec fn opt_nat(o: Option<u64>) -> Option<nat> {
    match o {
        Some(n) => Some(n as nat),
        None => None,
    }
}

impl Found {
    /// The options found, as seen by the specification.
    spec fn view_seen(&self) -> Seen {
        Seen {
            count: opt_nat(match self.count { Some(n) => Some(n as u64), None => None }),
            skip_prefixes: opt_text(self.skip_prefixes),
            file_path: opt_text(self.file_path),
            log_level: opt_text(self.log_level),
            domain: opt_text(self.domain),
            port: opt_nat(match self.port { Some(n) => Some(n as u64), None => None }),
            max_valid_ips: opt_nat(match self.max_valid_ips { Some(n) => Some(n as u64), None => None }),
        }
    }

    /// Whether option `o` has been found.
    fn has(&self, o: Opt) -> (r: bool)
        ensures
            r == seen(self.view_seen(), o),
    {
        match o {
            Opt::Count => self.count.is_some(),
            Opt::SkipPrefixes => self.skip_prefixes.is_some(),
            Opt::FilePath => self.file_path.is_some(),
            Opt::LogLevel => self.log_level.is_some(),
            Opt::Domain => self.domain.is_some(),
            Opt::Port => self.port.is_some(),
            Opt::MaxValidIps => self.max_valid_ips.is_some(),
        }
    }

    /// Records value `v` for option `o`; false, with nothing recorded, when
    /// a number option's value is not a number in range.
    fn record(&mut self, o: Opt, v: &str) -> (ok: bool)
        ensures
            ok <==> record(old(self).view_seen(), o, v@) is Some,
            ok ==> record(old(self).view_seen(), o, v@) == Some(final(self).view_seen()),
    {
        match o {
            Opt::Count => match parse_number(v, usize::MAX as u64) {
                Some(n) => {
                    self.count = Some(n as usize);
                    true
                },
                None => false,
            },
            Opt::SkipPrefixes => {
                self.skip_prefixes = Some(v.to_owned());
                true
            },
            Opt::FilePath => {
                self.file_path = Some(v.to_owned());
                true
            },
            Opt::LogLevel => {
                self.log_level = Some(v.to_owned());
                true
            },
            Opt::Domain => {
                self.domain = Some(v.to_owned());
                true
            },
            Opt::Port => match parse_number(v, u16::MAX as u64) {
                Some(n) => {
                    self.port = Some(n as u16);
                    true
                },
                None => false,
            },
            Opt::MaxValidIps => match parse_number(v, usize::MAX as u64) {
                Some(n) => {
                    self.max_valid_ips = Some(n as usize);
                    true
                },
                None => false,
            },
        }
    }
}

impl Args {
    /// Reads the command line `argv` (program name first) in its plain
    /// form: each option is followed by its value as the next token, numbers
    /// are bare decimal digits; an option may be given
    /// once; `--domain` is required; the others fall back to their
    /// defaults. The first fault from the left decides the error; a missing
    /// `--domain` is reported only on a line without other fault.
    pub fn parse_from(argv: &[&str]) -> (r: Result<Args, ArgsError>)
        ensures
            match scan(operands(argv@), nothing_seen()) {
                Err(k) => r matches Err(e) && e.kind == k,
                Ok(s) => if s.domain is None {
                    r matches Err(e) && e.kind == ErrorKind::MissingRequiredArgument
                } else {
                    r matches Ok(a) && settles(a, s)
                },
            },
    {
        let ghost ops = operands(argv@);
        let mut found = Found {
            count: None,
            skip_prefixes: None,
            file_path: None,
            log_level: None,
            domain: None,
            port: None,
            max_valid_ips: None,
        };
        let n: usize = if argv.len() == 0 {
            0
        } else {
            argv.len() - 1
        };
        proof {
            assert(found.view_seen() == nothing_seen());
            assert(ops.skip(0) =~= ops);
        }
        let mut j: usize = 0;
        while j < n
            invariant
                n == ops.len(),
                ops == operands(argv@),
                n > 0 ==> argv@.len() == n + 1,
                j <= n,
                scan(ops, nothing_seen()) == scan(ops.skip(j as int), found.view_seen()),
            decreases n - j,
        {
            let ghost rest = ops.skip(j as int);
            let t = argv[j + 1];
            proof {
                assert(rest[0] == ops[j as int]);
                assert(ops[j as int] == argv@[j + 1]@);
            }
            let o = match opt_from(t) {
                Some(o) => o,
                None => {
                    return Err(ArgsError { kind: ErrorKind::UnknownArgument });
                },
            };
            if j + 1 >= n {
                return Err(ArgsError { kind: ErrorKind::MissingValue });
            }
            if found.has(o) {
                return Err(ArgsError { kind: ErrorKind::ArgumentConflict });
            }
            let v = argv[j + 2];
            proof {
                assert(rest[1] == ops[j + 1]);
                assert(ops[j + 1] == argv@[j + 2]@);
            }
            if !found.record(o, v) {
                return Err(ArgsError { kind: ErrorKind::ValueValidation });
            }
            proof {
                assert(rest.skip(2) =~= ops.skip(j + 2));
            }
            j = j + 2;
        }
        proof {
            assert(ops.skip(j as int).len() == 0);
        }
        let domain = match found.domain {
            Some(d) => d,
            None => {
                return Err(ArgsError { kind: ErrorKind::MissingRequiredArgument });
            },
        };
        let count = match found.count {
            Some(c) => c,
            None => DEFAULT_COUNT,
        };
        let log_level = match found.log_level {
            Some(l) => l,
            None => "info".to_owned(),
        };
        let port = match found.port {
            Some(p) => p,
            None => DEFAULT_PORT,
        };
        let max_valid_ips = match found.max_valid_ips {
            Some(m) => m,
            None => DEFAULT_MAX_VALID_IPS,
        };
        Ok(Args {
            count,
            skip_prefixes: found.skip_prefixes,
            file_path: found.file_path,
            log_level,
            domain,
            port,
            max_valid_ips,
        })
    }
}

/// The pieces of `s` between commas, empty ones included, in order.
pub open spec fn comma_pieces(s: Seq<char>) -> Seq<Seq<char>>
    decreases s.len(),
{
    if s.len() == 0 {
        seq![Seq::empty()]
    } else if s.last() == ',' {
        comma_pieces(s.drop_last()).push(Seq::empty())
    } else {
        let p = comma_pieces(s.drop_last());
        p.update(p.len() - 1, p.last().push(s.last()))
    }
}

/// The non-empty pieces of `s` between commas, in order.
pub open spec fn prefix_list(s: Seq<char>) -> Seq<Seq<char>> {
    comma_pieces(s).filter(|p: Seq<char>| p.len() > 0)
}

/// Splits `s` at its commas and keeps the non-empty pieces, in order.
pub fn split_prefixes(s: &str) -> (r: Vec<String>)
    ensures
        texts(r@) == prefix_list(s@),
{
    let ghost nonempty = |p: Seq<char>| p.len() > 0;
    let n = s.unicode_len();
    let mut out: Vec<String> = Vec::new();
    let ghost mut done: Seq<Seq<char>> = Seq::empty();
    let mut start: usize = 0;
    let mut i: usize = 0;
    proof {
        assert(s@.take(0) =~= Seq::<char>::empty());
        assert(comma_pieces(Seq::<char>::empty()) =~= done.push(s@.subrange(0, 0)));
    }
    while i < n
        invariant
            n == s@.len(),
            start <= i <= n,
            nonempty == (|p: Seq<char>| p.len() > 0),
            comma_pieces(s@.take(i as int)) == done.push(s@.subrange(start as int, i as int)),
            texts(out@) == done.filter(nonempty),
        decreases n - i,
    {
        let c = s.get_char(i);
        let ghost cur = s@.subrange(start as int, i as int);
        proof {
            assert(s@.take(i + 1).drop_last() =~= s@.take(i as int));
            assert(s@.take(i + 1).last() == c);
            done.lemma_filter_push(cur, nonempty);
        }
        if c == ',' {
            if start < i {
                let piece = s.substring_char(start, i).to_owned();
                out.push(piece);
                proof {
                    assert(texts(out@) =~= texts(out@.drop_last()).push(cur));
                }
            }
            proof {
                done = done.push(cur);
            }
            start = i + 1;
            proof {
                assert(s@.subrange(start as int, i + 1) =~= Seq::<char>::empty());
            }
        } else {
            proof {
                assert(s@.subrange(start as int, i + 1) =~= cur.push(c));
                assert(done.push(cur).update(done.len() as int, cur.push(c)) =~= done.push(cur.push(c)));
            }
        }
        i = i + 1;
    }
    let ghost cur = s@.subrange(start as int, i as int);
    proof {
        assert(s@.take(i as int) =~= s@);
        done.lemma_filter_push(cur, nonempty);
    }
    if start < n {
        let piece = s.substring_char(start, n).to_owned();
        out.push(piece);
        proof {
            assert(texts(out@) =~= texts(out@.drop_last()).push(cur));
        }
    }
    out
}

impl Args {
    /// The prefixes to leave out: the non-empty comma-separated pieces of
    /// `skip_prefixes`, none when it is absent.
    pub fn skip_prefix_list(&self) -> (r: Vec<String>)
        ensures
            texts(r@) == prefix_list(
                match self.skip_prefixes {
                    Some(x) => x@,
                    None => Seq::empty(),
                },
            ),
    {
        match &self.skip_prefixes {
            Some(x) => split_prefixes(x.as_str()),
            None => {
                let v: Vec<String> = Vec::new();
                proof {
                    let nonempty = |p: Seq<char>| p.len() > 0;
                    Seq::<Seq<char>>::empty().lemma_filter_push(Seq::empty(), nonempty);
                    assert(comma_pieces(Seq::empty()) =~= Seq::<Seq<char>>::empty().push(Seq::empty()));
                    assert(Seq::<Seq<char>>::empty().filter(nonempty) =~= Seq::<Seq<char>>::empty());
                    assert(texts(v@) =~= Seq::<Seq<char>>::empty());
                }
                v
            },
        }
    }
}

} // verus!
