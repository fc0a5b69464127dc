use vstd::prelude::*;

verus! {

use vstd::slice::slice_to_vec;
use crate::text::ascii_bytes;
use crate::text::ascii_of;
use crate::text::bytes_eq;

/// The request verbs the server accepts.
#[derive(Clone, Copy, Debug, PartialEq, Eq, Structural)]
pub enum HttpVerb {
    Get,
    Post,
}

/// Why a request failed to parse.
#[derive(Debug, PartialEq, Eq, Structural)]
pub enum HttpParseError {
    /// The request was empty.
    InvalidInput,
    /// The verb of the request line is neither GET nor POST.
    UnsupportedVerb,
}

/// A parsed request head: the verb and path of the request line, and the
/// header fields that followed it.
pub struct HttpHeader {
    pub verb: HttpVerb,
    pub path: Vec<u8>,
    pub table: Vec<(Vec<u8>, Vec<u8>)>,
}

/// Index of the first occurrence of the byte pair `a b` at or after
/// `from`, or the length of `s` when there is none.
pub open spec fn find_pair(s: Seq<u8>, a: u8, b: u8, from: int) -> int
    decreases s.len() - from,
    when 0 <= from <= s.len()
{
    if from + 2 > s.len() {
        s.len() as int
    } else if s[from] == a && s[from + 1] == b {
        from
    } else {
        find_pair(s, a, b, from + 1)
    }
}

proof fn lemma_find_pair_bounds(s: Seq<u8>, a: u8, b: u8, from: int)
    requires
        0 <= from <= s.len(),
    ensures
        from <= find_pair(s, a, b, from) <= s.len(),
        find_pair(s, a, b, from) < s.len() ==> find_pair(s, a, b, from) + 2 <= s.len(),
    decreases s.len() - from,
{
    if from + 2 > s.len() {
    } else if s[from] == a && s[from + 1] == b {
    } else {
        lemma_find_pair_bounds(s, a, b, from + 1);
    }
}

/// A byte that separates the tokens of the request line.
pub open spec fn is_sp(b: u8) -> bool {
    b == 32 || b == 9
}

/// Index of the first non-separator byte at or after `from`.
pub open spec fn skip_sp(s: Seq<u8>, from: int) -> int
    decreases s.len() - from,
    when 0 <= from <= s.len()
{
    if from >= s.len() {
        from
    } else if is_sp(s[from]) {
        skip_sp(s, from + 1)
    } else {
        from
    }
}

/// Index of the first separator byte at or after `from`, or the end.
pub open spec fn scan_token(s: Seq<u8>, from: int) -> int
    decreases s.len() - from,
    when 0 <= from <= s.len()
{
    if from >= s.len() {
        from
    } else if is_sp(s[from]) {
        from
    } else {
        scan_token(s, from + 1)
    }
}

/// The request line: everything before the first CRLF.
pub open spec fn request_line(data: Seq<u8>) -> Seq<u8> {
    data.subrange(0, find_pair(data, 13, 10, 0))
}

/// The first token of a line.
pub open spec fn verb_token(line: Seq<u8>) -> Seq<u8> {
    line.subrange(skip_sp(line, 0), scan_token(line, skip_sp(line, 0)))
}

/// The second token of a line, empty when there is none.
pub open spec fn path_token(line: Seq<u8>) -> Seq<u8> {
    let e1 = scan_token(line, skip_sp(line, 0));
    line.subrange(skip_sp(line, e1), scan_token(line, skip_sp(line, e1)))
}

/// The key and value of one header line, split at the first ": ", or
/// `None` when the line has no ": ".
pub open spec fn header_entry(line: Seq<u8>) -> Option<(Seq<u8>, Seq<u8>)> {
    let c = find_pair(line, 58, 32, 0);
    if c == line.len() {
        None
    } else {
        Some((line.subrange(0, c), line.subrange(c + 2, line.len() as int)))
    }
}

/// The header fields spelled by the CRLF-separated lines of `data` from
/// `pos` on, stopping at the first empty line; on a repeated key the
/// later line wins.
pub open spec fn headers_from(data: Seq<u8>, pos: int) -> Map<Seq<u8>, Seq<u8>>
    decreases data.len() - pos,
    when 0 <= pos <= data.len() via headers_from_dec
{
    let j = find_pair(data, 13, 10, pos);
    let line = data.subrange(pos, j);
    if line.len() == 0 {
        Map::empty()
    } else {
        let rest: Map<Seq<u8>, Seq<u8>> = if j == data.len() {
            Map::empty()
        } else {
            headers_from(data, j + 2)
        };
        match header_entry(line) {
            None => rest,
            Some((k, v)) => if rest.contains_key(k) {
                rest
            } else {
                rest.insert(k, v)
            },
        }
    }
}

#[via_fn]
proof fn headers_from_dec(data: Seq<u8>, pos: int) {
    lemma_find_pair_bounds(data, 13, 10, pos);
}

/// The header fields of a whole request: the lines after the request
/// line; none when the request is a single line.
pub open spec fn headers_model(data: Seq<u8>) -> Map<Seq<u8>, Seq<u8>> {
    let j = find_pair(data, 13, 10, 0);
    if j == data.len() {
        Map::empty()
    } else {
        headers_from(data, j + 2)
    }
}

/// The header table as a mapping; on a repeated key the later entry wins.
pub open spec fn table_map(s: Seq<(Vec<u8>, Vec<u8>)>) -> Map<Seq<u8>, Seq<u8>>
    decreases s.len(),
{
    if s.len() == 0 {
        Map::empty()
    } else {
        table_map(s.drop_last()).insert(s.last().0@, s.last().1@)
    }
}

impl HttpHeader {
    /// The header fields as a mapping from key to value.
    pub open spec fn table_view(self) -> Map<Seq<u8>, Seq<u8>> {
        table_map(self.table@)
    }

    /// Look a header field up by its exact key.
    pub fn get<'a>(&'a self, key: &[u8]) -> (r: Option<&'a Vec<u8>>)
        ensures
            (match r {
                Some(v) => self.table_view().contains_key(key@) && v@ == self.table_view()[key@],
                None => !self.table_view().contains_key(key@),
            }),
    {
        let mut i = self.table.len();
        proof {
            assert(self.table@.take(i as int) =~= self.table@);
        }
        while i > 0
            invariant
                i <= self.table@.len(),
                table_map(self.table@).contains_key(key@) == table_map(
                    self.table@.take(i as int),
                ).contains_key(key@),
                table_map(self.table@).contains_key(key@) ==> table_map(self.table@)[key@]
                    == table_map(self.table@.take(i as int))[key@],
            decreases i,
        {
            let entry = &self.table[i - 1];
            proof {
                assert(self.table@.take(i as int).drop_last() =~= self.table@.take(i as int - 1));
                assert(self.table@.take(i as int).last() == self.table@[i as int - 1]);
            }
            if bytes_eq(entry.0.as_slice(), key) {
                return Some(&entry.1);
            }
            i = i - 1;
        }
        proof {
            assert(self.table@.take(0) =~= Seq::<(Vec<u8>, Vec<u8>)>::empty());
        }
        None
    }
}

/// Index of the first occurrence of the byte pair `a b` in `s` at or
/// after `from`, or the length of `s` when there is none.
fn find_pair_at(s: &[u8], a: u8, b: u8, from: usize) -> (r: usize)
    requires
        from <= s@.len(),
    ensures
        r as int == find_pair(s@, a, b, from as int),
        from <= r <= s@.len(),
        (r as int) < s@.len() ==> r + 2 <= s@.len() && s@[r as int] == a && s@[r as int + 1] == b,
{
    let mut i = from;
    while s.len() - i >= 2
        invariant
            from <= i <= s@.len(),
            find_pair(s@, a, b, from as int) == find_pair(s@, a, b, i as int),
        decreases s@.len() - i,
    {
        if s[i] == a && s[i + 1] == b {
            return i;
        }
        i += 1;
    }
    s.len()
}

/// Bounds of the token that starts at or after `from`: the index of its
/// first byte and the index one past its last byte.
fn token_bounds(line: &[u8], from: usize) -> (r: (usize, usize))
    requires
        from <= line@.len(),
    ensures
        r.0 as int == skip_sp(line@, from as int),
        r.1 as int == scan_token(line@, r.0 as int),
        from <= r.0 <= r.1 <= line@.len(),
{
    let mut i = from;
    while i < line.len() && is_sp_byte(line[i])
        invariant
            from <= i <= line@.len(),
            skip_sp(line@, from as int) == skip_sp(line@, i as int),
        decreases line@.len() - i,
    {
        i += 1;
    }
    let start = i;
    let mut j = start;
    while j < line.len() && !is_sp_byte(line[j])
        invariant
            start <= j <= line@.len(),
            scan_token(line@, start as int) == scan_token(line@, j as int),
        decreases line@.len() - j,
    {
        j += 1;
    }
    (start, j)
}

fn is_sp_byte(b: u8) -> (r: bool)
    ensures
        r == is_sp(b),
{
    b == 32 || b == 9
}

/// Parse the head of one request: the `<verb> <path> <version>` request
/// line, then `key: value` lines until a blank line; on a repeated key
/// the later line wins. An empty request is invalid, and a verb other
/// than GET or POST is unsupported.
pub fn parse(data: &[u8]) -> (r: Result<HttpHeader, HttpParseError>)
    ensures
        (match r {
            Ok(h) => data@.len() > 0 && {
                let line = request_line(data@);
                &&& (verb_token(line) == ascii_bytes("GET"@) || verb_token(line) == ascii_bytes(
                    "POST"@,
                ))
                &&& (h.verb == HttpVerb::Get <==> verb_token(line) == ascii_bytes("GET"@))
                &&& h.path@ == path_token(line)
                &&& h.table_view() == headers_model(data@)
            },
            Err(HttpParseError::InvalidInput) => data@.len() == 0,
            Err(HttpParseError::UnsupportedVerb) => data@.len() > 0 && verb_token(
                request_line(data@),
            ) != ascii_bytes("GET"@) && verb_token(request_line(data@)) != ascii_bytes("POST"@),
        }),
{
    if data.len() == 0 {
        return Err(HttpParseError::InvalidInput);
    }
    proof {
        reveal_strlit("GET");
        reveal_strlit("POST");
        assert(vstd::string::is_ascii("GET"));
        assert(vstd::string::is_ascii("POST"));
    }
    let line_end = find_pair_at(data, 13, 10, 0);
    let line = &data[0..line_end];
    proof {
        assert(line@ == request_line(data@));
    }
    let (vs, ve) = token_bounds(line, 0);
    let verb_slice = &line[vs..ve];
    let verb: HttpVerb;
    if bytes_eq(verb_slice, ascii_of("GET")) {
        verb = HttpVerb::Get;
    } else if bytes_eq(verb_slice, ascii_of("POST")) {
        verb = HttpVerb::Post;
    } else {
        return Err(HttpParseError::UnsupportedVerb);
    }
    let (ps, pe) = token_bounds(line, ve);
    let path = slice_to_vec(&line[ps..pe]);
    proof {
        assert(path@ == path_token(request_line(data@)));
    }

    let mut table: Vec<(Vec<u8>, Vec<u8>)> = Vec::new();
    if line_end < data.len() {
        let mut pos = line_end + 2;
        let mut live = true;
        proof {
            assert(table_map(table@) =~= Map::<Seq<u8>, Seq<u8>>::empty());
            assert(headers_model(data@) == headers_from(data@, pos as int));
            assert(table_map(table@).union_prefer_right(headers_from(data@, pos as int))
                =~= headers_from(data@, pos as int));
        }
        while live
            invariant
                pos <= data@.len(),
                live ==> headers_model(data@) =~= table_map(table@).union_prefer_right(
                    headers_from(data@, pos as int),
                ),
                !live ==> headers_model(data@) =~= table_map(table@),
            decreases data@.len() - pos + (if live {
                1int
            } else {
                0int
            }),
        {
            let j = find_pair_at(data, 13, 10, pos);
            let hline = &data[pos..j];
            let ghost rest: Map<Seq<u8>, Seq<u8>> = if j == data@.len() {
                Map::empty()
            } else {
                headers_from(data@, j + 2)
            };
            proof {
                assert(hline@ == data@.subrange(pos as int, j as int));
            }
            if hline.len() == 0 {
                proof {
                    assert(headers_from(data@, pos as int) =~= Map::<Seq<u8>, Seq<u8>>::empty());
                    assert(table_map(table@).union_prefer_right(
                        Map::<Seq<u8>, Seq<u8>>::empty(),
                    ) =~= table_map(table@));
                }
                live = false;
            } else {
                let c = find_pair_at(hline, 58, 32, 0);
                if c < hline.len() {
                    let key = slice_to_vec(&hline[0..c]);
                    let value = slice_to_vec(&hline[c + 2..hline.len()]);
                    let ghost tm0 = table@;
                    proof {
                        assert(header_entry(hline@) == Some((key@, value@)));
                        assert(headers_from(data@, pos as int) =~= (if rest.contains_key(key@) {
                            rest
                        } else {
                            rest.insert(key@, value@)
                        }));
                    }
                    table.push((key, value));
                    proof {
                        assert(table@.drop_last() =~= tm0);
                        assert(table_map(table@) =~= table_map(tm0).insert(key@, value@));
                        assert(table_map(tm0).union_prefer_right(
                            headers_from(data@, pos as int),
                        ) =~= table_map(table@).union_prefer_right(rest));
                    }
                } else {
                    proof {
                        assert(header_entry(hline@) is None);
                        assert(headers_from(data@, pos as int) =~= rest);
                    }
                }
                if j == data.len() {
                    proof {
                        assert(rest =~= Map::<Seq<u8>, Seq<u8>>::empty());
                        assert(table_map(table@).union_prefer_right(rest) =~= table_map(table@));
                    }
                    live = false;
                } else {
                    pos = j + 2;
                    proof {
                        assert(table_map(table@).union_prefer_right(rest) =~= table_map(
                            table@,
                        ).union_prefer_right(headers_from(data@, pos as int)));
                    }
                }
            }
        }
    } else {
        proof {
            assert(headers_model(data@) =~= Map::<Seq<u8>, Seq<u8>>::empty());
            assert(table_map(table@) =~= Map::<Seq<u8>, Seq<u8>>::empty());
        }
    }
    Ok(HttpHeader { verb, path, table })
}

} // verus!
