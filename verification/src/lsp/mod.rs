use crate::diagnostics::{diag_view, diag_views, DiagView, Diagnostic};
use crate::parser::symbols::SymbolOccurrence;
use crate::resolution::conn::{doc_index, ConnectionGraph, ResolvedDestination, ResolvedReference, ResolvedDocument};
use crate::utils::path::{parse_file_uri, spec_uri_path};
use crate::utils::text::ByteRange;
use crate::resolution::path::{path_eq, same_path};
use crate::resolution::slug::{digit_char, push_decimal, spec_decimal};
use crate::utils::strs::{spec_is_ws, push_char, chars_of, is_prefix, skip_ws, skip_ws_back, starts_with, str_eq, ws_prefix_len, ws_suffix_len};
use vstd::prelude::*;

verus! {

/// `s` less its leading and trailing white space, as `str::trim` gives it.
pub open spec fn spec_trim(s: Seq<char>) -> Seq<char> {
    let t = s.skip(ws_prefix_len(s) as int);
    t.take(t.len() - ws_suffix_len(t))
}

pub open spec fn is_digit(c: char) -> bool {
    '0' <= c && c <= '9'
}

/// The number that a sequence of decimal digits writes.
pub open spec fn digits_value(d: Seq<char>) -> nat
    decreases d.len(),
{
    if d.len() == 0 {
        0
    } else {
        digits_value(d.drop_last()) * 10 + ((d.last() as u32) - ('0' as u32)) as nat
    }
}

/// What `str::parse::<usize>` gives: an optional `+`, then one or more decimal digits
/// whose value fits in a `usize`.
pub open spec fn spec_parse_usize(s: Seq<char>) -> Option<usize> {
    let d = unsigned_part(s);
    if d.len() > 0 && all_digits(d) && digits_value(d) <= usize::MAX {
        Some(digits_value(d) as usize)
    } else {
        None
    }
}

/// `s` less a leading `+`.
pub open spec fn unsigned_part(s: Seq<char>) -> Seq<char> {
    if s.len() > 0 && s[0] == '+' {
        s.drop_first()
    } else {
        s
    }
}

pub open spec fn all_digits(d: Seq<char>) -> bool {
    forall|i: int| 0 <= i < d.len() ==> is_digit(#[trigger] d[i])
}

proof fn lemma_digits_grow(d: Seq<char>, i: int, j: int)
    requires
        0 <= i <= j <= d.len(),
        forall|k: int| 0 <= k < d.len() ==> is_digit(#[trigger] d[k]),
    ensures
        digits_value(d.take(i)) <= digits_value(d.take(j)),
    decreases j - i,
{
    if i < j {
        lemma_digits_grow(d, i, j - 1);
        assert(d.take(j).drop_last() =~= d.take(j - 1));
    }
}

/// Parses a decimal `usize` the way `str::parse::<usize>` does.
pub fn parse_usize(s: &str) -> (r: Option<usize>)
    ensures
        r == spec_parse_usize(s@),
{
    let c = chars_of(s);
    let ghost sv = c@;
    let start: usize = if c.len() > 0 && c[0] == '+' { 1 } else { 0 };
    let ghost d = sv.skip(start as int);
    assert(d =~= unsigned_part(s@));
    if start == c.len() {
        return None;
    }
    let mut v: usize = 0;
    let mut i: usize = start;
    assert(d.take(0) =~= Seq::<char>::empty());
    while i < c.len()
        invariant
            start <= i <= c@.len(),
            sv == c@,
            sv == s@,
            d == sv.skip(start as int),
            d == unsigned_part(s@),
            v == digits_value(d.take(i - start)),
            forall|k: int| 0 <= k < i - start ==> is_digit(#[trigger] d[k]),
        decreases c@.len() - i,
    {
        let ch = c[i];
        assert(d[i - start] == ch);
        if !('0' <= ch && ch <= '9') {
            assert(!is_digit(d[i - start]));
            assert(!all_digits(d));
            return None;
        }
        let digit = (ch as u32 - '0' as u32) as usize;
        assert(d.take(i - start + 1).drop_last() =~= d.take(i - start));
        assert(d.take(i - start + 1).last() == ch);
        if v > (usize::MAX - digit) / 10 {
            proof {
                assert(v * 10 + digit > usize::MAX) by (nonlinear_arith)
                    requires
                        v > (usize::MAX - digit) / 10,
                        digit <= 9,
                ;
                assert(digits_value(d.take(i - start + 1)) == v * 10 + digit);
                if all_digits(d) {
                    lemma_digits_grow(d, i - start + 1, d.len() as int);
                    assert(d.take(d.len() as int) =~= d);
                    assert(digits_value(d) > usize::MAX);
                }
            }
            return None;
        }
        v = v * 10 + digit;
        i += 1;
    }
    assert(d.take(i - start) =~= d);
    assert(all_digits(d));
    Some(v)
}

/// A line of a message header.
#[derive(Clone, Copy, Debug, PartialEq, Eq, Structural)]
pub enum HeaderLine {
    /// The empty line that ends the header.
    End,
    /// A `Content-Length:` line, with its value when it is a decimal `usize`.
    Length(Option<usize>),
    /// Any other line.
    Other,
}

pub open spec fn content_length_key() -> Seq<char> {
    seq!['C', 'o', 'n', 't', 'e', 'n', 't', '-', 'L', 'e', 'n', 'g', 't', 'h', ':']
}

pub open spec fn spec_header(line: Seq<char>) -> HeaderLine {
    if line == seq!['\r', '\n'] {
        HeaderLine::End
    } else if is_prefix(content_length_key(), line) {
        HeaderLine::Length(spec_parse_usize(spec_trim(line.skip(content_length_key().len() as int))))
    } else {
        HeaderLine::Other
    }
}

/// Classifies one line of a message header, line break included.
pub fn classify_header(line: &str) -> (r: HeaderLine)
    ensures
        r == spec_header(line@),
{
    let c = chars_of(line);
    if c.len() == 2 && c[0] == '\r' && c[1] == '\n' {
        assert(c@ =~= seq!['\r', '\n']);
        return HeaderLine::End;
    }
    assert(c@ != seq!['\r', '\n']);
    let key = vec!['C', 'o', 'n', 't', 'e', 'n', 't', '-', 'L', 'e', 'n', 'g', 't', 'h', ':'];
    assert(key@ =~= content_length_key());
    if !starts_with(&c, &key) {
        return HeaderLine::Other;
    }
    let a = skip_ws(&c, 15, c.len());
    let b = skip_ws_back(&c, a, c.len());
    proof {
        let rest = c@.skip(15);
        assert(c@.subrange(15, c@.len() as int) =~= rest);
        assert(c@.subrange(a as int, c@.len() as int) =~= rest.skip(ws_prefix_len(rest) as int));
    }
    let mut value = String::new();
    let mut k: usize = a;
    while k < b
        invariant
            a <= k <= b <= c@.len(),
            value@ == c@.subrange(a as int, k as int),
        decreases b - k,
    {
        crate::utils::strs::push_char(&mut value, c[k]);
        assert(c@.subrange(a as int, k + 1) =~= c@.subrange(a as int, k as int).push(c@[k as int]));
        k += 1;
    }
    proof {
        let rest = c@.skip(15);
        let t = rest.skip(ws_prefix_len(rest) as int);
        assert(t =~= c@.subrange(a as int, c@.len() as int));
        assert(value@ =~= t.take(t.len() - ws_suffix_len(t)));
    }
    HeaderLine::Length(parse_usize(value.as_str()))
}

/// The header line that announces a body of `n` bytes.
pub open spec fn spec_length_line(n: usize) -> Seq<char> {
    content_length_key() + seq![' '] + spec_decimal(n as nat) + seq!['\r', '\n']
}

/// The header line that announces a body of `n` bytes: `Content-Length: n` and a line
/// break.
pub fn content_length_line(n: usize) -> (r: String)
    ensures
        r@ == spec_length_line(n),
{
    let mut out = String::from_str("Content-Length: ");
    proof {
        reveal_strlit("Content-Length: ");
    }
    assert(out@ =~= content_length_key() + seq![' ']);
    push_decimal(&mut out, n);
    push_char(&mut out, '\r');
    push_char(&mut out, '\n');
    assert(out@ =~= spec_length_line(n));
    out
}

proof fn lemma_digit_char(d: nat)
    requires
        d < 10,
    ensures
        is_digit(digit_char(d)),
        (digit_char(d) as u32) - ('0' as u32) == d,
{
}

proof fn lemma_decimal_digits(n: nat)
    ensures
        spec_decimal(n).len() > 0,
        all_digits(spec_decimal(n)),
        digits_value(spec_decimal(n)) == n,
    decreases n,
{
    if n < 10 {
        lemma_digit_char(n);
        let s = spec_decimal(n);
        assert(s =~= seq![digit_char(n)]);
        assert(s.drop_last() =~= Seq::<char>::empty());
        assert(digits_value(s.drop_last()) == 0);
        assert(s.last() == digit_char(n));
        assert(digits_value(s) == digits_value(s.drop_last()) * 10 + ((s.last() as u32) - ('0' as u32)) as nat);
    } else {
        lemma_decimal_digits(n / 10);
        lemma_digit_char(n % 10);
        let d = spec_decimal(n / 10);
        assert(spec_decimal(n) == d.push(digit_char(n % 10)));
        assert(d.push(digit_char(n % 10)).drop_last() =~= d);
        assert forall|i: int| 0 <= i < spec_decimal(n).len() implies is_digit(#[trigger] spec_decimal(n)[i]) by {
            if i < d.len() {
                assert(spec_decimal(n)[i] == d[i]);
            }
        }
        let s = spec_decimal(n);
        assert(s.drop_last() =~= d);
        assert(s.last() == digit_char(n % 10));
        assert(digits_value(s) == digits_value(s.drop_last()) * 10 + ((s.last() as u32) - ('0' as u32)) as nat);
        assert(digits_value(s) == (n / 10) * 10 + n % 10);
        assert((n / 10) * 10 + n % 10 == n) by (nonlinear_arith);
    }
}

/// Trimming a space before and a line break after a run of digits leaves the digits.
proof fn lemma_trim_digits(d: Seq<char>)
    requires
        d.len() > 0,
        all_digits(d),
    ensures
        spec_trim(seq![' '] + d + seq!['\r', '\n']) == d,
{
    let rest = seq![' '] + d + seq!['\r', '\n'];
    assert(is_digit(d[0]));
    assert(is_digit(d[d.len() - 1]));
    assert(rest.drop_first() =~= d + seq!['\r', '\n']);
    assert((d + seq!['\r', '\n'])[0] == d[0]);
    assert(ws_prefix_len(d + seq!['\r', '\n']) == 0);
    assert(ws_prefix_len(rest) == 1);
    let t = rest.skip(1);
    assert(t =~= d + seq!['\r', '\n']);
    assert(t.drop_last() =~= d + seq!['\r']);
    assert((d + seq!['\r']).drop_last() =~= d);
    assert(d.last() == d[d.len() - 1]);
    assert(ws_suffix_len(d) == 0);
    assert(ws_suffix_len(d + seq!['\r']) == 1);
    assert(ws_suffix_len(t) == 2);
    assert(t.take(t.len() - 2) =~= d);
}

/// A header line written for a body length reads back as that length.
pub proof fn lemma_length_line_round_trip(n: usize)
    ensures
        spec_header(spec_length_line(n)) == HeaderLine::Length(Some(n)),
{
    let d = spec_decimal(n as nat);
    lemma_decimal_digits(n as nat);
    lemma_trim_digits(d);
    let line = spec_length_line(n);
    assert(line.len() >= 18);
    assert(line.len() != 2);
    assert(line.take(15) =~= content_length_key());
    assert(line.skip(15) =~= seq![' '] + d + seq!['\r', '\n']);
    assert(is_digit(d[0]));
    assert(unsigned_part(d) == d);
}

/// The workspace root that an `initialize` request names: the path of the first workspace
/// folder's URI, else that of the root URI, else the root path as given.
pub open spec fn spec_initialize_root(
    folder_uri: Option<Seq<char>>,
    root_uri: Option<Seq<char>>,
    root_path: Option<Seq<char>>,
) -> Option<Seq<char>> {
    match uri_path_opt(folder_uri) {
        Some(p) => Some(p),
        None => match uri_path_opt(root_uri) {
            Some(p) => Some(p),
            None => root_path,
        },
    }
}

/// The path a URI names, if there is a URI and it names one.
pub open spec fn uri_path_opt(uri: Option<Seq<char>>) -> Option<Seq<char>> {
    match uri {
        Some(u) => spec_uri_path(u),
        None => None,
    }
}

pub open spec fn opt_chars(o: Option<String>) -> Option<Seq<char>> {
    match o {
        Some(s) => Some(s@),
        None => None,
    }
}

fn uri_path_of(uri: &Option<String>) -> (r: Option<String>)
    ensures
        opt_chars(r) == uri_path_opt(opt_chars(*uri)),
{
    match uri {
        Some(u) => parse_file_uri(u.as_str()),
        None => None,
    }
}

/// Picks the workspace root out of what an `initialize` request carries.
pub fn initialize_root(folder_uri: Option<String>, root_uri: Option<String>, root_path: Option<String>) -> (r: Option<
    String,
>)
    ensures
        opt_chars(r) == spec_initialize_root(opt_chars(folder_uri), opt_chars(root_uri), opt_chars(root_path)),
{
    if let Some(p) = uri_path_of(&folder_uri) {
        return Some(p);
    }
    if let Some(p) = uri_path_of(&root_uri) {
        return Some(p);
    }
    root_path
}

/// What the server does with a request or notification.
#[derive(Clone, Copy, Debug, PartialEq, Eq, Structural)]
pub enum RequestAction {
    /// Answer that the server is not initialized.
    NotInitialized,
    /// Do nothing.
    Ignore,
    Initialize,
    Initialized,
    Shutdown,
    Exit,
    DidOpen,
    DidChange,
    DidClose,
    Completion,
    Hover,
    Definition,
    References,
    DocumentSymbol,
    /// Answer that the method is unknown.
    MethodNotFound,
}

/// The action for a message with method `m`, which expects an answer when `has_id`.
/// Before initialization only `initialize`, `shutdown` and `exit` are handled.
pub open spec fn spec_route(initialized: bool, m: Seq<char>, has_id: bool) -> RequestAction {
    if !initialized && !(m == "initialize"@ || m == "shutdown"@ || m == "exit"@) {
        if has_id {
            RequestAction::NotInitialized
        } else {
            RequestAction::Ignore
        }
    } else if m == "initialize"@ {
        RequestAction::Initialize
    } else if m == "initialized"@ {
        RequestAction::Initialized
    } else if m == "shutdown"@ {
        RequestAction::Shutdown
    } else if m == "exit"@ {
        RequestAction::Exit
    } else if m == "textDocument/didOpen"@ {
        RequestAction::DidOpen
    } else if m == "textDocument/didChange"@ {
        RequestAction::DidChange
    } else if m == "textDocument/didClose"@ {
        RequestAction::DidClose
    } else if m == "textDocument/completion"@ {
        RequestAction::Completion
    } else if m == "textDocument/hover"@ {
        RequestAction::Hover
    } else if m == "textDocument/definition"@ {
        RequestAction::Definition
    } else if m == "textDocument/references"@ {
        RequestAction::References
    } else if m == "textDocument/documentSymbol"@ {
        RequestAction::DocumentSymbol
    } else if has_id {
        RequestAction::MethodNotFound
    } else {
        RequestAction::Ignore
    }
}

/// Decides what to do with a message.
pub fn route(initialized: bool, method: &str, has_id: bool) -> (r: RequestAction)
    ensures
        r == spec_route(initialized, method@, has_id),
{
    let early = str_eq(method, "initialize") || str_eq(method, "shutdown") || str_eq(method, "exit");
    if !initialized && !early {
        if has_id {
            RequestAction::NotInitialized
        } else {
            RequestAction::Ignore
        }
    } else if str_eq(method, "initialize") {
        RequestAction::Initialize
    } else if str_eq(method, "initialized") {
        RequestAction::Initialized
    } else if str_eq(method, "shutdown") {
        RequestAction::Shutdown
    } else if str_eq(method, "exit") {
        RequestAction::Exit
    } else if str_eq(method, "textDocument/didOpen") {
        RequestAction::DidOpen
    } else if str_eq(method, "textDocument/didChange") {
        RequestAction::DidChange
    } else if str_eq(method, "textDocument/didClose") {
        RequestAction::DidClose
    } else if str_eq(method, "textDocument/completion") {
        RequestAction::Completion
    } else if str_eq(method, "textDocument/hover") {
        RequestAction::Hover
    } else if str_eq(method, "textDocument/definition") {
        RequestAction::Definition
    } else if str_eq(method, "textDocument/references") {
        RequestAction::References
    } else if str_eq(method, "textDocument/documentSymbol") {
        RequestAction::DocumentSymbol
    } else if has_id {
        RequestAction::MethodNotFound
    } else {
        RequestAction::Ignore
    }
}

/// The process exit code: zero after a requested shutdown, one otherwise.
pub fn exit_code(shutdown_requested: bool) -> (r: i32)
    ensures
        r == (if shutdown_requested { 0i32 } else { 1i32 }),
{
    if shutdown_requested {
        0
    } else {
        1
    }
}

/// The index of the first document of the graph at `path`.
fn document_position(graph: &ConnectionGraph, path: &str) -> (r: Option<usize>)
    ensures
        match r {
            Some(i) => doc_index(graph.documents@, path@) == Some(i as int),
            None => doc_index(graph.documents@, path@) is None,
        },
{
    let ghost docs = graph.documents@;
    let mut i: usize = 0;
    while i < graph.documents.len()
        invariant
            i <= docs.len(),
            docs == graph.documents@,
            forall|j: int| 0 <= j < i ==> !path_eq(#[trigger] docs[j].path@, path@),
        decreases docs.len() - i,
    {
        if same_path(graph.documents[i].path.as_str(), path) {
            proof {
                let c = choose|c: int|
                    0 <= c < docs.len() && path_eq(docs[c].path@, path@) && forall|j: int|
                        0 <= j < c ==> !path_eq(#[trigger] docs[j].path@, path@);
                assert(0 <= c < docs.len() && path_eq(docs[c].path@, path@));
                if c < i {
                    assert(!path_eq(docs[c].path@, path@));
                } else if c > i {
                    assert(!path_eq(docs[i as int].path@, path@));
                }
            }
            return Some(i);
        }
        i += 1;
    }
    None
}

pub open spec fn covers(r: ByteRange, offset: usize) -> bool {
    r.start <= offset && offset < r.end
}

/// The index of the first symbol whose full range covers `offset`.
pub open spec fn symbol_at(syms: Seq<SymbolOccurrence>, offset: usize) -> Option<int> {
    if exists|k: int|
        0 <= k < syms.len() && covers(syms[k].full_range, offset) && forall|j: int|
            0 <= j < k ==> !covers(#[trigger] syms[j].full_range, offset) {
        Some(
            choose|k: int|
                0 <= k < syms.len() && covers(syms[k].full_range, offset) && forall|j: int|
                    0 <= j < k ==> !covers(#[trigger] syms[j].full_range, offset),
        )
    } else {
        None
    }
}

fn find_symbol(syms: &Vec<SymbolOccurrence>, offset: usize) -> (r: Option<usize>)
    ensures
        match r {
            Some(k) => symbol_at(syms@, offset) == Some(k as int),
            None => symbol_at(syms@, offset) is None,
        },
{
    let mut i: usize = 0;
    while i < syms.len()
        invariant
            i <= syms@.len(),
            forall|j: int| 0 <= j < i ==> !covers(#[trigger] syms@[j].full_range, offset),
        decreases syms@.len() - i,
    {
        if syms[i].full_range.contains(offset) {
            proof {
                let c = choose|c: int|
                    0 <= c < syms@.len() && covers(syms@[c].full_range, offset) && forall|j: int|
                        0 <= j < c ==> !covers(#[trigger] syms@[j].full_range, offset);
                assert(0 <= c < syms@.len() && covers(syms@[c].full_range, offset));
                if c < i {
                    assert(!covers(syms@[c].full_range, offset));
                } else if c > i {
                    assert(!covers(syms@[i as int].full_range, offset));
                }
            }
            return Some(i);
        }
        i += 1;
    }
    None
}

/// The symbol under the cursor: the document at `path` and the first of its symbols whose
/// full range covers `offset`, by index.
pub fn hover_symbol(graph: &ConnectionGraph, path: &str, offset: usize) -> (r: Option<(usize, usize)>)
    ensures
        match r {
            Some((i, k)) => doc_index(graph.documents@, path@) == Some(i as int) && symbol_at(
                graph.documents@[i as int].structure.symbols@,
                offset,
            ) == Some(k as int),
            None => match doc_index(graph.documents@, path@) {
                Some(i) => symbol_at(graph.documents@[i].structure.symbols@, offset) is None,
                None => true,
            },
        },
{
    let i = document_position(graph, path)?;
    let k = find_symbol(&graph.documents[i].structure.symbols, offset)?;
    Some((i, k))
}

/// A resolved reference from the document at `path` whose full range covers `offset`.
pub open spec fn under_cursor(r: ResolvedReference, path: Seq<char>, offset: usize) -> bool {
    path_eq(r.source_path@, path) && covers(r.full_range, offset)
}

/// For the reference with index `a`, each destination that leads to a document of the
/// graph: the reference, the destination and the document, by index.
pub open spec fn dest_targets(ds: Seq<ResolvedDestination>, docs: Seq<ResolvedDocument>, a: int) -> Seq<(int, int, int)>
    decreases ds.len(),
{
    if ds.len() == 0 {
        Seq::empty()
    } else {
        let rest = dest_targets(ds.drop_last(), docs, a);
        match doc_index(docs, ds.last().path@) {
            Some(t) => rest.push((a, ds.len() - 1, t)),
            None => rest,
        }
    }
}

/// The definitions under the cursor, in order of references and destinations.
pub open spec fn def_targets(refs: Seq<ResolvedReference>, docs: Seq<ResolvedDocument>, path: Seq<char>, offset: usize) -> Seq<(int, int, int)>
    decreases refs.len(),
{
    if refs.len() == 0 {
        Seq::empty()
    } else {
        let rest = def_targets(refs.drop_last(), docs, path, offset);
        let r = refs.last();
        if under_cursor(r, path, offset) {
            rest + dest_targets(r.destinations@, docs, refs.len() - 1)
        } else {
            rest
        }
    }
}

pub open spec fn triples(v: Seq<(usize, usize, usize)>) -> Seq<(int, int, int)> {
    v.map_values(|x: (usize, usize, usize)| (x.0 as int, x.1 as int, x.2 as int))
}

/// Where the references under the cursor lead: for each resolved reference from `path`
/// that covers `offset` and each of its destinations that is a document of the graph,
/// the reference, the destination and the document, by index.
pub fn definition_targets(graph: &ConnectionGraph, path: &str, offset: usize) -> (r: Vec<(usize, usize, usize)>)
    ensures
        triples(r@) == def_targets(graph.resolved_references@, graph.documents@, path@, offset),
{
    let refs = &graph.resolved_references;
    let ghost docs = graph.documents@;
    let mut out: Vec<(usize, usize, usize)> = Vec::new();
    let mut a: usize = 0;
    assert(triples(out@) =~= def_targets(refs@.take(0), docs, path@, offset));
    while a < refs.len()
        invariant
            a <= refs@.len(),
            docs == graph.documents@,
            triples(out@) == def_targets(refs@.take(a as int), docs, path@, offset),
        decreases refs@.len() - a,
    {
        assert(refs@.take(a + 1).drop_last() =~= refs@.take(a as int));
        let r = &refs[a];
        if same_path(r.source_path.as_str(), path) && r.full_range.contains(offset) {
            let ghost base = triples(out@);
            let mut b: usize = 0;
            assert(triples(out@) =~= base + dest_targets(r.destinations@.take(0), docs, a as int));
            while b < r.destinations.len()
                invariant
                    b <= r.destinations@.len(),
                    docs == graph.documents@,
                    triples(out@) == base + dest_targets(r.destinations@.take(b as int), docs, a as int),
                decreases r.destinations@.len() - b,
            {
                let ghost tb = r.destinations@.take(b + 1);
                assert(tb.drop_last() =~= r.destinations@.take(b as int));
                assert(tb.last() == r.destinations@[b as int]);
                assert(tb.len() - 1 == b);
                let ghost before = dest_targets(r.destinations@.take(b as int), docs, a as int);
                if let Some(t) = document_position(graph, r.destinations[b].path.as_str()) {
                    out.push((a, b, t));
                    assert(triples(out@) =~= triples(out@.drop_last()).push((a as int, b as int, t as int)));
                    assert(base + before.push((a as int, b as int, t as int)) =~= (base + before).push((a as int, b as int, t as int)));
                }
                b += 1;
            }
            assert(r.destinations@.take(r.destinations@.len() as int) =~= r.destinations@);
        }
        a += 1;
    }
    assert(refs@.take(refs@.len() as int) =~= refs@);
    out
}

/// Whether some destination of `r` is the place `range` of the document at `path`.
pub open spec fn leads_to(r: ResolvedReference, path: Seq<char>, range: Option<ByteRange>) -> bool {
    exists|b: int|
        0 <= b < r.destinations@.len() && path_eq(#[trigger] r.destinations@[b].path@, path)
            && r.destinations@[b].range == range
}

/// The indices of the resolved references that lead to `range` of the document at `path`.
pub open spec fn refs_to(refs: Seq<ResolvedReference>, path: Seq<char>, range: Option<ByteRange>) -> Seq<int>
    decreases refs.len(),
{
    if refs.len() == 0 {
        Seq::empty()
    } else {
        let rest = refs_to(refs.drop_last(), path, range);
        if leads_to(refs.last(), path, range) {
            rest.push(refs.len() - 1)
        } else {
            rest
        }
    }
}

/// The references to the symbol under the cursor: those that lead to the name of the
/// first symbol of the document at `path` whose full range covers `offset`.
pub open spec fn spec_references(g: ConnectionGraph, path: Seq<char>, offset: usize) -> Seq<int> {
    match doc_index(g.documents@, path) {
        Some(i) => match symbol_at(g.documents@[i].structure.symbols@, offset) {
            Some(k) => refs_to(
                g.resolved_references@,
                path,
                g.documents@[i].structure.symbols@[k].name_range,
            ),
            None => Seq::empty(),
        },
        None => Seq::empty(),
    }
}

fn same_range(a: Option<ByteRange>, b: Option<ByteRange>) -> (r: bool)
    ensures
        r == (a == b),
{
    match (a, b) {
        (Some(x), Some(y)) => x.start == y.start && x.end == y.end,
        (None, None) => true,
        _ => false,
    }
}

/// The resolved references to the symbol under the cursor, by index.
pub fn reference_sources(graph: &ConnectionGraph, path: &str, offset: usize) -> (r: Vec<usize>)
    ensures
        r@.map_values(|x: usize| x as int) == spec_references(*graph, path@, offset),
{
    let (i, k) = match hover_symbol(graph, path, offset) {
        Some(p) => p,
        None => {
            assert(Seq::<usize>::empty().map_values(|x: usize| x as int) =~= Seq::<int>::empty());
            return Vec::new();
        },
    };
    let range = graph.documents[i].structure.symbols[k].name_range;
    let refs = &graph.resolved_references;
    let mut out: Vec<usize> = Vec::new();
    let mut a: usize = 0;
    assert(out@.map_values(|x: usize| x as int) =~= refs_to(refs@.take(0), path@, range));
    while a < refs.len()
        invariant
            a <= refs@.len(),
            out@.map_values(|x: usize| x as int) == refs_to(refs@.take(a as int), path@, range),
        decreases refs@.len() - a,
    {
        assert(refs@.take(a + 1).drop_last() =~= refs@.take(a as int));
        let r = &refs[a];
        let mut hit = false;
        let mut b: usize = 0;
        while b < r.destinations.len()
            invariant
                b <= r.destinations@.len(),
                hit == exists|q: int|
                    0 <= q < b && path_eq(#[trigger] r.destinations@[q].path@, path@) && r.destinations@[q].range == range,
            decreases r.destinations@.len() - b,
        {
            if same_path(r.destinations[b].path.as_str(), path) && same_range(r.destinations[b].range, range) {
                hit = true;
            }
            b += 1;
        }
        if hit {
            out.push(a);
            assert(out@.map_values(|x: usize| x as int) =~= out@.drop_last().map_values(|x: usize| x as int).push(a as int));
        }
        a += 1;
    }
    assert(refs@.take(refs@.len() as int) =~= refs@);
    out
}

/// The distinct paths of the diagnostics (by location), in order of first appearance.
pub open spec fn path_keys(ds: Seq<Diagnostic>) -> Seq<Seq<char>>
    decreases ds.len(),
{
    if ds.len() == 0 {
        Seq::empty()
    } else {
        let rest = path_keys(ds.drop_last());
        if exists|k: int| 0 <= k < rest.len() && path_eq(#[trigger] rest[k], ds.last().path@) {
            rest
        } else {
            rest.push(ds.last().path@)
        }
    }
}

/// The diagnostics at `path`, in order.
pub open spec fn at_path(ds: Seq<Diagnostic>, path: Seq<char>) -> Seq<DiagView>
    decreases ds.len(),
{
    if ds.len() == 0 {
        Seq::empty()
    } else {
        let rest = at_path(ds.drop_last(), path);
        if path_eq(ds.last().path@, path) {
            rest.push(diag_view(ds.last()))
        } else {
            rest
        }
    }
}

fn path_keys_of(ds: &Vec<Diagnostic>) -> (r: Vec<String>)
    ensures
        r@.map_values(|s: String| s@) == path_keys(ds@),
{
    let mut out: Vec<String> = Vec::new();
    let mut i: usize = 0;
    assert(out@.map_values(|s: String| s@) =~= path_keys(ds@.take(0)));
    while i < ds.len()
        invariant
            i <= ds@.len(),
            out@.map_values(|s: String| s@) == path_keys(ds@.take(i as int)),
        decreases ds@.len() - i,
    {
        assert(ds@.take(i + 1).drop_last() =~= ds@.take(i as int));
        let ghost ov = out@.map_values(|s: String| s@);
        let d = &ds[i];
        let mut seen = false;
        let mut j: usize = 0;
        while j < out.len()
            invariant
                j <= out@.len(),
                ov == out@.map_values(|s: String| s@),
                seen == exists|k: int| 0 <= k < j && path_eq(#[trigger] ov[k], d.path@),
            decreases out@.len() - j,
        {
            assert(ov[j as int] == out@[j as int]@);
            if same_path(out[j].as_str(), d.path.as_str()) {
                seen = true;
            }
            j += 1;
        }
        if !seen {
            out.push(d.path.clone());
            assert(out@.map_values(|s: String| s@) =~= ov.push(d.path@));
        }
        i += 1;
    }
    assert(ds@.take(ds@.len() as int) =~= ds@);
    out
}

fn diagnostics_at(ds: &Vec<Diagnostic>, path: &str) -> (r: Vec<Diagnostic>)
    ensures
        diag_views(r@) == at_path(ds@, path@),
{
    let mut out: Vec<Diagnostic> = Vec::new();
    let mut i: usize = 0;
    assert(diag_views(out@) =~= at_path(ds@.take(0), path@));
    while i < ds.len()
        invariant
            i <= ds@.len(),
            diag_views(out@) == at_path(ds@.take(i as int), path@),
        decreases ds@.len() - i,
    {
        assert(ds@.take(i + 1).drop_last() =~= ds@.take(i as int));
        if same_path(ds[i].path.as_str(), path) {
            let d = ds[i].clone_diag();
            out.push(d);
            assert(diag_views(out@) =~= diag_views(out@.drop_last()).push(diag_view(d)));
        }
        i += 1;
    }
    assert(ds@.take(ds@.len() as int) =~= ds@);
    out
}

/// The diagnostics grouped by document: one group per distinct path, in order of first
/// appearance, each holding that document's diagnostics in order.
pub fn group_by_path(ds: &Vec<Diagnostic>) -> (r: Vec<(String, Vec<Diagnostic>)>)
    ensures
        r@.len() == path_keys(ds@).len(),
        forall|k: int|
            0 <= k < r@.len() ==> (#[trigger] r@[k]).0@ == path_keys(ds@)[k] && diag_views(r@[k].1@) == at_path(
                ds@,
                path_keys(ds@)[k],
            ),
{
    let keys = path_keys_of(ds);
    let ghost kv = keys@.map_values(|s: String| s@);
    let mut out: Vec<(String, Vec<Diagnostic>)> = Vec::new();
    let mut i: usize = 0;
    while i < keys.len()
        invariant
            i <= keys@.len(),
            kv == keys@.map_values(|s: String| s@),
            kv == path_keys(ds@),
            out@.len() == i,
            forall|k: int|
                0 <= k < i ==> (#[trigger] out@[k]).0@ == kv[k] && diag_views(out@[k].1@) == at_path(ds@, kv[k]),
        decreases keys@.len() - i,
    {
        assert(kv[i as int] == keys@[i as int]@);
        let group = diagnostics_at(ds, keys[i].as_str());
        out.push((keys[i].clone(), group));
        i += 1;
    }
    out
}

/// The diagnostics whose path is that of a document of the graph, in order.
pub open spec fn documented(ds: Seq<Diagnostic>, docs: Seq<ResolvedDocument>) -> Seq<DiagView>
    decreases ds.len(),
{
    if ds.len() == 0 {
        Seq::empty()
    } else {
        let rest = documented(ds.drop_last(), docs);
        if doc_index(docs, ds.last().path@) is Some {
            rest.push(diag_view(ds.last()))
        } else {
            rest
        }
    }
}

/// Keeps the diagnostics that belong to a document of the graph.
pub fn keep_documented(graph: &ConnectionGraph, ds: &Vec<Diagnostic>) -> (r: Vec<Diagnostic>)
    ensures
        diag_views(r@) == documented(ds@, graph.documents@),
{
    let mut out: Vec<Diagnostic> = Vec::new();
    let mut i: usize = 0;
    assert(diag_views(out@) =~= documented(ds@.take(0), graph.documents@));
    while i < ds.len()
        invariant
            i <= ds@.len(),
            diag_views(out@) == documented(ds@.take(i as int), graph.documents@),
        decreases ds@.len() - i,
    {
        assert(ds@.take(i + 1).drop_last() =~= ds@.take(i as int));
        if document_position(graph, ds[i].path.as_str()).is_some() {
            let d = ds[i].clone_diag();
            out.push(d);
            assert(diag_views(out@) =~= diag_views(out@.drop_last()).push(diag_view(d)));
        }
        i += 1;
    }
    assert(ds@.take(ds@.len() as int) =~= ds@);
    out
}

} // verus!
