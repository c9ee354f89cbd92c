use vstd::prelude::*;

verus! {

use vstd::slice::slice_subrange;
use vstd::slice::slice_to_vec;
use vstd::utf8::decode_utf8;
use vstd::utf8::valid_utf8;

/// A failure while loading a manifest: either the file could not be read, or
/// its contents do not match the manifest grammar.
#[derive(Debug)]
pub enum Error {
    Io(std::io::Error),
    Parsing,
}

/// Relies on `std::io::Error` only as an opaque value: the manifest loader
/// outside this crate stores the error a failed file read surfaced.
#[verifier::external_type_specification]
#[verifier::external_body]
pub struct ExIoError(std::io::Error);

impl From<std::io::Error> for Error {
    fn from(error: std::io::Error) -> (r: Error) {
        Error::Io(error)
    }
}

impl vstd::std_specs::convert::FromSpecImpl<std::io::Error> for Error {
    open spec fn obeys_from_spec() -> bool {
        true
    }

    open spec fn from_spec(error: std::io::Error) -> Error {
        Error::Io(error)
    }
}

/// One manifest entry: a process name and the shell command it runs.
#[derive(Debug, PartialEq)]
pub struct ProcfileEntry {
    pub name: String,
    pub command: String,
}

/// The mathematical value of one entry: its name and command as character
/// sequences.
pub ghost struct EntrySpec {
    pub name: Seq<char>,
    pub command: Seq<char>,
}

impl View for ProcfileEntry {
    type V = EntrySpec;

    open spec fn view(&self) -> EntrySpec {
        EntrySpec { name: self.name@, command: self.command@ }
    }
}

/// The values of a sequence of entries.
pub open spec fn entries_view(s: Seq<ProcfileEntry>) -> Seq<EntrySpec> {
    s.map_values(|e: ProcfileEntry| e@)
}

pub const NL: u8 = 10;

pub const CR: u8 = 13;

pub const SP: u8 = 32;

pub const COLON: u8 = 58;

/// A name is a run of ASCII alphanumerics and underscores.
pub open spec fn is_name_byte(b: u8) -> bool {
    (65 <= b && b <= 90) || (97 <= b && b <= 122) || (48 <= b && b <= 57) || b == 95
}

/// Whether a byte may appear in a process name.
pub fn valid_process_name(b: u8) -> (r: bool)
    ensures
        r == is_name_byte(b),
{
    (65 <= b && b <= 90) || (97 <= b && b <= 122) || (48 <= b && b <= 57) || b == 95
}

/// The first position at or after `i` that does not hold a name byte.
pub open spec fn name_end(s: Seq<u8>, i: int) -> int
    decreases s.len() - i,
{
    if i < 0 || i >= s.len() || !is_name_byte(s[i]) {
        i
    } else {
        name_end(s, i + 1)
    }
}

/// The first position at or after `i` that does not hold a space.
pub open spec fn space_end(s: Seq<u8>, i: int) -> int
    decreases s.len() - i,
{
    if i < 0 || i >= s.len() || s[i] != SP {
        i
    } else {
        space_end(s, i + 1)
    }
}

/// The first position at or after `i` that holds a line-terminator byte, or
/// the end of the input.
pub open spec fn command_end(s: Seq<u8>, i: int) -> int
    decreases s.len() - i,
{
    if i < 0 || i >= s.len() || s[i] == NL || s[i] == CR {
        i
    } else {
        command_end(s, i + 1)
    }
}

/// Every scan starting inside the input stops inside the input and never
/// moves backwards.
pub proof fn lemma_scan_bounds(s: Seq<u8>, i: int)
    requires
        0 <= i <= s.len(),
    ensures
        i <= name_end(s, i) <= s.len(),
        i <= space_end(s, i) <= s.len(),
        i <= command_end(s, i) <= s.len(),
    decreases s.len() - i,
{
    if i < s.len() {
        lemma_scan_bounds(s, i + 1);
    }
}

/// One entry, before decoding: the raw bytes of its name and command.
pub ghost struct RawEntry {
    pub name: Seq<u8>,
    pub command: Seq<u8>,
}

/// The manifest grammar, applied from position `i` to the end of the input.
///
/// An entry is a non-empty name, a `:`, discarded spaces, then command bytes
/// up to a line terminator (`\n`, or `\r\n`) or the end of the input.  The
/// grammar demands one or more entries and consumes the whole input;
/// anything else fails as a whole.
pub open spec fn parse_from(s: Seq<u8>, i: int) -> Option<Seq<RawEntry>>
    decreases s.len() - i,
    via parse_from_decreases
{
    let n = name_end(s, i);
    if n == i || n >= s.len() || s[n] != COLON {
        None
    } else {
        let w = space_end(s, n + 1);
        let c = command_end(s, w);
        let entry = RawEntry { name: s.subrange(i, n), command: s.subrange(w, c) };
        if c == s.len() {
            Some(seq![entry])
        } else {
            let after: int = if s[c] == NL {
                c + 1
            } else if c + 1 < s.len() && s[c + 1] == NL {
                c + 2
            } else {
                -1
            };
            if after == -1 {
                None
            } else if after == s.len() {
                Some(seq![entry])
            } else {
                match parse_from(s, after) {
                    Some(rest) => Some(seq![entry] + rest),
                    None => None,
                }
            }
        }
    }
}

#[via_fn]
proof fn parse_from_decreases(s: Seq<u8>, i: int) {
    if 0 <= i && i <= s.len() {
        lemma_scan_bounds(s, i);
        let n = name_end(s, i);
        if 0 <= n + 1 && n + 1 <= s.len() {
            lemma_scan_bounds(s, n + 1);
            let w = space_end(s, n + 1);
            lemma_scan_bounds(s, w);
        }
    }
}

/// Whether both fields of a raw entry are valid UTF-8.
pub open spec fn entry_decodes(r: RawEntry) -> bool {
    valid_utf8(r.name) && valid_utf8(r.command)
}

/// The character-level value of a raw entry.
pub open spec fn decode_entry(r: RawEntry) -> EntrySpec {
    EntrySpec { name: decode_utf8(r.name), command: decode_utf8(r.command) }
}

/// What parsing a manifest yields: the grammar must match the whole input and
/// every field must decode as UTF-8; otherwise the manifest is rejected as a
/// whole.
pub open spec fn manifest_spec(s: Seq<u8>) -> Option<Seq<EntrySpec>> {
    match parse_from(s, 0) {
        Some(raws) => if forall|k: int| 0 <= k < raws.len() ==> #[trigger] entry_decodes(raws[k]) {
            Some(raws.map_values(|r: RawEntry| decode_entry(r)))
        } else {
            None
        },
        None => None,
    }
}

/// Relies on `String::from_utf8`: it returns `Ok` exactly when the bytes are
/// valid UTF-8, and then carries the characters those bytes encode.
#[verifier::external_body]
fn bytes_to_string(v: Vec<u8>) -> (r: Option<String>)
    ensures
        r is Some <==> valid_utf8(v@),
        r matches Some(s) ==> s@ == decode_utf8(v@),
{
    String::from_utf8(v).ok()
}

/// Parse a whole manifest.
///
/// Succeeds exactly when the input decomposes into one or more well-formed
/// entries whose fields decode as UTF-8, and then returns the entries in
/// order; every other input is rejected as a whole with `Error::Parsing`.
pub fn process_entries(input: &[u8]) -> (r: Result<Vec<ProcfileEntry>, Error>)
    ensures
        r is Ok <==> manifest_spec(input@) is Some,
        r matches Ok(v) ==> entries_view(v@) == manifest_spec(input@).unwrap(),
        r matches Ok(v) ==> v@.len() > 0,
        r matches Err(e) ==> e is Parsing,
{
    let ghost s: Seq<u8> = input@;
    let n: usize = input.len();
    let mut pos: usize = 0;
    let mut acc: Vec<ProcfileEntry> = Vec::new();
    let ghost mut raws_done: Seq<RawEntry> = Seq::empty();

    if n == 0 {
        proof {
            assert(name_end(s, 0) == 0);
        }
        return Err(Error::Parsing);
    }
    proof {
        assert(parse_from(s, 0) matches Some(r) ==> raws_done + r =~= r);
    }
    loop
        invariant
            s == input@,
            n == input.len(),
            0 < n,
            pos < n,
            acc@.len() == raws_done.len(),
            forall|k: int| 0 <= k < raws_done.len() ==> #[trigger] entry_decodes(raws_done[k]),
            forall|k: int|
                0 <= k < raws_done.len() ==> acc@[k]@ == decode_entry(#[trigger] raws_done[k]),
            parse_from(s, 0) == (match parse_from(s, pos as int) {
                Some(rest) => Some(raws_done + rest),
                None => None::<Seq<RawEntry>>,
            }),
        decreases n - pos,
    {
        let entry_start = pos;
        while pos < n && valid_process_name(input[pos])
            invariant
                s == input@,
                n == input.len(),
                entry_start <= pos <= n,
                name_end(s, entry_start as int) == name_end(s, pos as int),
            decreases n - pos,
        {
            proof {
                assert(name_end(s, pos as int) == name_end(s, pos as int + 1));
            }
            pos = pos + 1;
        }
        proof {
            assert(name_end(s, pos as int) == pos as int);
            assert(name_end(s, entry_start as int) == pos as int);
        }
        if pos == entry_start || pos == n || input[pos] != COLON {
            proof {
                assert(parse_from(s, entry_start as int) is None);
            }
            return Err(Error::Parsing);
        }
        let name_stop = pos;
        let name_bytes = slice_to_vec(slice_subrange(input, entry_start, name_stop));
        pos = pos + 1;
        while pos < n && input[pos] == SP
            invariant
                s == input@,
                n == input.len(),
                name_stop + 1 <= pos <= n,
                space_end(s, name_stop as int + 1) == space_end(s, pos as int),
            decreases n - pos,
        {
            proof {
                assert(space_end(s, pos as int) == space_end(s, pos as int + 1));
            }
            pos = pos + 1;
        }
        proof {
            assert(space_end(s, pos as int) == pos as int);
            assert(space_end(s, name_stop as int + 1) == pos as int);
        }
        let cmd_start = pos;
        while pos < n && input[pos] != NL && input[pos] != CR
            invariant
                s == input@,
                n == input.len(),
                cmd_start <= pos <= n,
                command_end(s, cmd_start as int) == command_end(s, pos as int),
            decreases n - pos,
        {
            proof {
                assert(command_end(s, pos as int) == command_end(s, pos as int + 1));
            }
            pos = pos + 1;
        }
        proof {
            assert(command_end(s, pos as int) == pos as int);
            assert(command_end(s, cmd_start as int) == pos as int);
        }
        let cmd_stop = pos;
        let cmd_bytes = slice_to_vec(slice_subrange(input, cmd_start, cmd_stop));
        let ghost raw = RawEntry {
            name: s.subrange(entry_start as int, name_stop as int),
            command: s.subrange(cmd_start as int, cmd_stop as int),
        };

        let mut at_end = false;
        if pos == n {
            at_end = true;
            proof {
                assert(parse_from(s, entry_start as int) == Some(seq![raw]));
            }
        } else if input[pos] == NL {
            pos = pos + 1;
            if pos == n {
                at_end = true;
                proof {
                    assert(parse_from(s, entry_start as int) == Some(seq![raw]));
                }
            }
        } else {
            if pos + 1 < n && input[pos + 1] == NL {
                pos = pos + 2;
                if pos == n {
                    at_end = true;
                    proof {
                        assert(parse_from(s, entry_start as int) == Some(seq![raw]));
                    }
                }
            } else {
                proof {
                    assert(parse_from(s, entry_start as int) is None);
                }
                return Err(Error::Parsing);
            }
        }
        proof {
            if !at_end {
                assert(parse_from(s, entry_start as int) == (match parse_from(s, pos as int) {
                    Some(rest) => Some(seq![raw] + rest),
                    None => None::<Seq<RawEntry>>,
                }));
            }
        }

        let name = match bytes_to_string(name_bytes) {
            Some(x) => x,
            None => {
                proof {
                    lemma_undecodable_entry(s, raws_done, raw, entry_start as int);
                }
                return Err(Error::Parsing);
            },
        };
        let command = match bytes_to_string(cmd_bytes) {
            Some(x) => x,
            None => {
                proof {
                    lemma_undecodable_entry(s, raws_done, raw, entry_start as int);
                }
                return Err(Error::Parsing);
            },
        };
        acc.push(ProcfileEntry { name, command });
        let ghost prev = raws_done;
        proof {
            raws_done = raws_done + seq![raw];
        }

        if at_end {
            proof {
                assert(parse_from(s, 0) == Some(raws_done));
                assert(manifest_spec(s) is Some);
                assert(entries_view(acc@) =~= manifest_spec(s).unwrap());
            }
            return Ok(acc);
        }
        proof {
            assert(parse_from(s, pos as int) matches Some(rest) ==> (prev + (seq![raw] + rest))
                =~= (raws_done + rest));
        }
    }
}

/// A scan over name bytes stops exactly at the first position that fails the
/// predicate.
proof fn lemma_name_end_is(s: Seq<u8>, i: int, m: int)
    requires
        0 <= i <= m <= s.len(),
        forall|j: int| i <= j < m ==> is_name_byte(#[trigger] s[j]),
        m < s.len() ==> !is_name_byte(s[m]),
    ensures
        name_end(s, i) == m,
    decreases m - i,
{
    if i < m {
        lemma_name_end_is(s, i + 1, m);
    }
}

/// A scan over spaces stops exactly at the first position that is no space.
proof fn lemma_space_end_is(s: Seq<u8>, i: int, m: int)
    requires
        0 <= i <= m <= s.len(),
        forall|j: int| i <= j < m ==> #[trigger] s[j] == SP,
        m < s.len() ==> s[m] != SP,
    ensures
        space_end(s, i) == m,
    decreases m - i,
{
    if i < m {
        lemma_space_end_is(s, i + 1, m);
    }
}

/// A scan over command bytes stops exactly at the first line terminator.
proof fn lemma_command_end_is(s: Seq<u8>, i: int, m: int)
    requires
        0 <= i <= m <= s.len(),
        forall|j: int| i <= j < m ==> #[trigger] s[j] != NL && s[j] != CR,
        m < s.len() ==> (s[m] == NL || s[m] == CR),
    ensures
        command_end(s, i) == m,
    decreases m - i,
{
    if i < m {
        lemma_command_end_is(s, i + 1, m);
    }
}

/// Scanning a suffix is scanning from the matching offset of the whole.
proof fn lemma_scan_shift(a: Seq<u8>, b: Seq<u8>, j: int)
    requires
        0 <= j <= b.len(),
    ensures
        name_end(a + b, a.len() + j) == a.len() + name_end(b, j),
        space_end(a + b, a.len() + j) == a.len() + space_end(b, j),
        command_end(a + b, a.len() + j) == a.len() + command_end(b, j),
    decreases b.len() - j,
{
    let t = a + b;
    if j < b.len() {
        assert(t[a.len() + j] == b[j]);
        lemma_scan_shift(a, b, j + 1);
    }
}

/// Parsing a suffix is parsing from the matching offset of the whole.
proof fn lemma_parse_shift(a: Seq<u8>, b: Seq<u8>, j: int)
    requires
        0 <= j <= b.len(),
    ensures
        parse_from(a + b, a.len() + j) == parse_from(b, j),
    decreases b.len() - j,
{
    let t = a + b;
    lemma_scan_shift(a, b, j);
    lemma_scan_bounds(b, j);
    let nb = name_end(b, j);
    if nb == j || nb >= b.len() || b[nb] != COLON {
        if nb < b.len() {
            assert(t[a.len() + nb] == b[nb]);
        }
    } else {
        assert(t[a.len() + nb] == b[nb]);
        lemma_scan_shift(a, b, nb + 1);
        lemma_scan_bounds(b, nb + 1);
        let wb = space_end(b, nb + 1);
        lemma_scan_shift(a, b, wb);
        lemma_scan_bounds(b, wb);
        let cb = command_end(b, wb);
        assert(t.subrange(a.len() + j, a.len() + nb) =~= b.subrange(j, nb));
        assert(t.subrange(a.len() + wb, a.len() + cb) =~= b.subrange(wb, cb));
        if cb == b.len() {
        } else {
            assert(t[a.len() + cb] == b[cb]);
            if b[cb] == NL {
                lemma_parse_shift(a, b, cb + 1);
            } else if cb + 1 < b.len() && b[cb + 1] == NL {
                assert(t[a.len() + cb + 1] == b[cb + 1]);
                lemma_parse_shift(a, b, cb + 2);
            } else {
                if a.len() + cb + 1 < t.len() {
                    assert(t[a.len() + cb + 1] == b[cb + 1]);
                }
            }
        }
    }
}

/// What each scan guarantees of the bytes it passed over and of the byte it
/// stopped at.
proof fn lemma_scan_props(s: Seq<u8>, i: int)
    requires
        0 <= i <= s.len(),
    ensures
        forall|j: int| i <= j < name_end(s, i) ==> is_name_byte(#[trigger] s[j]),
        name_end(s, i) == s.len() || !is_name_byte(s[name_end(s, i)]),
        forall|j: int| i <= j < space_end(s, i) ==> #[trigger] s[j] == SP,
        space_end(s, i) == s.len() || s[space_end(s, i)] != SP,
        forall|j: int| i <= j < command_end(s, i) ==> #[trigger] s[j] != NL && s[j] != CR,
        command_end(s, i) == s.len() || s[command_end(s, i)] == NL || s[command_end(s, i)] == CR,
    decreases s.len() - i,
{
    lemma_scan_bounds(s, i);
    if i < s.len() {
        lemma_scan_props(s, i + 1);
    }
}

/// Grammar soundness: every entry a successful parse yields is well-formed
/// and renders back; in particular its name is non-empty and made of name
/// bytes, and its command holds no line terminator and no leading space.
pub proof fn lemma_parse_sound(s: Seq<u8>, i: int)
    requires
        0 <= i <= s.len(),
        parse_from(s, i) is Some,
    ensures
        parse_from(s, i).unwrap().len() > 0,
        forall|k: int|
            0 <= k < parse_from(s, i).unwrap().len() ==> renderable(
                #[trigger] parse_from(s, i).unwrap()[k],
            ),
    decreases s.len() - i,
{
    lemma_scan_bounds(s, i);
    lemma_scan_props(s, i);
    let n = name_end(s, i);
    lemma_scan_bounds(s, n + 1);
    lemma_scan_props(s, n + 1);
    let w = space_end(s, n + 1);
    lemma_scan_bounds(s, w);
    lemma_scan_props(s, w);
    let c = command_end(s, w);
    let entry = RawEntry { name: s.subrange(i, n), command: s.subrange(w, c) };
    assert(renderable(entry)) by {
        assert(forall|j: int| 0 <= j < entry.name.len() ==> #[trigger] entry.name[j] == s[i + j]);
        assert(forall|j: int|
            0 <= j < entry.command.len() ==> #[trigger] entry.command[j] == s[w + j]);
        if entry.command.len() > 0 {
            assert(s[w] != SP);
        }
    }
    if c == s.len() {
    } else {
        let after: int = if s[c] == NL {
            c + 1
        } else {
            c + 2
        };
        if after < s.len() {
            lemma_parse_sound(s, after);
            let rest = parse_from(s, after).unwrap();
            assert(forall|k: int|
                1 <= k < parse_from(s, i).unwrap().len() ==> parse_from(s, i).unwrap()[k]
                    == #[trigger] rest[k - 1]);
        }
    }
}

/// The bytes of one `name: command` manifest line.
pub open spec fn render_entry(e: RawEntry) -> Seq<u8> {
    e.name + seq![COLON, SP] + e.command
}

/// The manifest text for a list of entries: its lines joined with `\n`,
/// without a trailing newline.
pub open spec fn render_manifest(s: Seq<RawEntry>) -> Seq<u8>
    decreases s.len(),
{
    if s.len() == 0 {
        Seq::empty()
    } else if s.len() == 1 {
        render_entry(s[0])
    } else {
        render_entry(s[0]) + seq![NL] + render_manifest(s.drop_first())
    }
}

/// An entry whose rendered line parses back: a non-empty name of name bytes,
/// and a command free of line terminators that does not begin with a space
/// (leading spaces would be consumed as separator padding).
pub open spec fn renderable(e: RawEntry) -> bool {
    &&& e.name.len() > 0
    &&& (forall|j: int| 0 <= j < e.name.len() ==> is_name_byte(#[trigger] e.name[j]))
    &&& (forall|j: int| 0 <= j < e.command.len() ==> #[trigger] e.command[j] != NL && e.command[j]
        != CR)
    &&& (e.command.len() > 0 ==> e.command[0] != SP)
}

/// Round trip: a manifest text built by joining `name: command` lines with
/// `\n` parses back to exactly those entries, in order.
pub proof fn lemma_round_trip(s: Seq<RawEntry>)
    requires
        s.len() > 0,
        forall|k: int| 0 <= k < s.len() ==> renderable(#[trigger] s[k]),
    ensures
        parse_from(render_manifest(s), 0) == Some(s),
    decreases s.len(),
{
    let e = s[0];
    let line = render_entry(e);
    let nl = e.name.len() as int;
    let t = render_manifest(s);
    if s.len() == 1 {
        assert(t == line);
        assert(forall|j: int| 0 <= j < nl ==> is_name_byte(#[trigger] t[j]));
        assert(!is_name_byte(t[nl]));
        lemma_name_end_is(t, 0, nl);
        assert(t[nl] == COLON);
        assert(t[nl + 1] == SP);
        assert(forall|j: int| nl + 2 <= j < t.len() ==> #[trigger] t[j] == e.command[j - nl - 2]);
        lemma_space_end_is(t, nl + 1, nl + 2);
        lemma_command_end_is(t, nl + 2, t.len() as int);
        assert(t.subrange(0, nl) =~= e.name);
        assert(t.subrange(nl + 2, t.len() as int) =~= e.command);
        assert(parse_from(t, 0) == Some(seq![e]));
        assert(seq![e] =~= s);
    } else {
        let rest = s.drop_first();
        let a = line + seq![NL];
        let b = render_manifest(rest);
        assert(t == line + seq![NL] + b);
        assert(t =~= a + b);
        assert(forall|k: int| 0 <= k < rest.len() ==> rest[k] == #[trigger] s[k + 1]);
        lemma_round_trip(rest);
        assert(forall|j: int| 0 <= j < nl ==> #[trigger] t[j] == e.name[j]);
        assert(!is_name_byte(t[nl]));
        lemma_name_end_is(t, 0, nl);
        assert(t[nl] == COLON);
        assert(t[nl + 1] == SP);
        let cend = nl + 2 + e.command.len() as int;
        assert(forall|j: int|
            nl + 2 <= j < cend ==> #[trigger] t[j] == e.command[j - nl - 2]);
        lemma_space_end_is(t, nl + 1, nl + 2);
        assert(t[cend] == NL);
        lemma_command_end_is(t, nl + 2, cend);
        assert(t.subrange(0, nl) =~= e.name);
        assert(t.subrange(nl + 2, cend) =~= e.command);
        assert(cend + 1 == a.len());
        assert(b.len() > 0) by {
            if rest.len() == 1 {
                assert(b == render_entry(rest[0]));
            }
        }
        lemma_parse_shift(a, b, 0);
        assert(parse_from(t, a.len() as int) == Some(rest));
        assert(parse_from(t, 0) == Some(seq![e] + rest));
        assert(seq![e] + rest =~= s);
    }
}

/// Round trip up to decoding: when the joined entries also decode as UTF-8,
/// the parsed manifest is exactly their decoded form, entry for entry.
pub proof fn lemma_round_trip_manifest(s: Seq<RawEntry>)
    requires
        s.len() > 0,
        forall|k: int| 0 <= k < s.len() ==> renderable(#[trigger] s[k]),
        forall|k: int| 0 <= k < s.len() ==> entry_decodes(#[trigger] s[k]),
    ensures
        manifest_spec(render_manifest(s)) matches Some(ds) && ds.len() == s.len() && (forall|
            k: int,
        |
            0 <= k < s.len() ==> ds[k] == decode_entry(#[trigger] s[k])),
{
    lemma_round_trip(s);
}

/// A name character, at the string level: an ASCII alphanumeric or an
/// underscore.
pub open spec fn is_name_char(c: char) -> bool {
    ('A' <= c && c <= 'Z') || ('a' <= c && c <= 'z') || ('0' <= c && c <= '9') || c == '_'
}

/// ASCII bytes decode to themselves, one character per byte.
proof fn lemma_ascii_decodes(s: Seq<u8>)
    requires
        forall|j: int| 0 <= j < s.len() ==> #[trigger] s[j] < 128,
    ensures
        valid_utf8(s),
        decode_utf8(s).len() == s.len(),
        forall|j: int| 0 <= j < s.len() ==> #[trigger] decode_utf8(s)[j] as u32 == s[j] as u32,
    decreases s.len(),
{
    if s.len() > 0 {
        let b = s[0];
        assert(b <= 0x7f ==> b & 0x7f == b) by (bit_vector);
        assert(vstd::utf8::is_leading_byte_width_1(b));
        assert(vstd::utf8::decode_first_codepoint(s) == b as u32);
        assert(vstd::utf8::valid_first_scalar(s));
        let rest = vstd::utf8::pop_first_scalar(s);
        assert(rest =~= s.drop_first());
        lemma_ascii_decodes(rest);
        assert(valid_utf8(s));
        assert(decode_utf8(s) == seq![vstd::utf8::decode_first_scalar(s) as char] + decode_utf8(
            rest,
        ));
        assert forall|j: int| 0 <= j < s.len() implies #[trigger] decode_utf8(s)[j] as u32 == s[j]
            as u32 by {
            if j >= 1 {
                assert(decode_utf8(s)[j] == decode_utf8(rest)[j - 1]);
                assert(rest[j - 1] == s[j]);
            }
        }
    }
}

/// Every name a successful parse yields matches the name alphabet at the
/// string level: it is non-empty and holds only ASCII alphanumerics and
/// underscores.
pub proof fn lemma_parsed_names(s: Seq<u8>)
    requires
        manifest_spec(s) is Some,
    ensures
        forall|k: int|
            0 <= k < manifest_spec(s).unwrap().len() ==> (#[trigger] manifest_spec(
                s,
            ).unwrap()[k]).name.len() > 0,
        forall|k: int, j: int|
            0 <= k < manifest_spec(s).unwrap().len() && 0 <= j < manifest_spec(
                s,
            ).unwrap()[k].name.len() ==> is_name_char(
                #[trigger] manifest_spec(s).unwrap()[k].name[j],
            ),
{
    let raws = parse_from(s, 0).unwrap();
    let ds = manifest_spec(s).unwrap();
    lemma_parse_sound(s, 0);
    assert forall|k: int| 0 <= k < ds.len() implies (#[trigger] ds[k]).name.len() > 0 && (forall|
        j: int,
    |
        0 <= j < ds[k].name.len() ==> is_name_char(#[trigger] ds[k].name[j])) by {
        let raw = raws[k];
        assert(renderable(raw));
        assert(forall|j: int| 0 <= j < raw.name.len() ==> #[trigger] raw.name[j] < 128);
        lemma_ascii_decodes(raw.name);
        assert(ds[k] == decode_entry(raw));
        assert(ds[k].name == decode_utf8(raw.name));
        assert forall|j: int| 0 <= j < ds[k].name.len() implies is_name_char(
            #[trigger] ds[k].name[j],
        ) by {
            assert(decode_utf8(raw.name)[j] as u32 == raw.name[j] as u32);
            assert(ds[k].name[j] == decode_utf8(raw.name)[j]);
            assert(is_name_byte(raw.name[j]));
            let c = ds[k].name[j];
            vstd::utf8::char_u32_cast(c, c as u32);
            assert(c == (raw.name[j] as u32) as char);
        }
    }
}

/// When the entry parsed at `i` does not decode as UTF-8, the whole manifest
/// is rejected.
proof fn lemma_undecodable_entry(s: Seq<u8>, done: Seq<RawEntry>, raw: RawEntry, i: int)
    requires
        !entry_decodes(raw),
        parse_from(s, i) matches Some(r) ==> r.len() > 0 && r[0] == raw,
        parse_from(s, 0) == (match parse_from(s, i) {
            Some(rest) => Some(done + rest),
            None => None::<Seq<RawEntry>>,
        }),
    ensures
        manifest_spec(s) is None,
{
    if parse_from(s, 0) is Some {
        let all = parse_from(s, 0).unwrap();
        let r = parse_from(s, i).unwrap();
        assert(all[done.len() as int] == raw);
        assert(!entry_decodes(all[done.len() as int]));
    }
}

} // verus!
