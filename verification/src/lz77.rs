//! LZ77 over a window of 255 bytes: tokens of (offset, length, next byte).

use vstd::prelude::*;

verus! {

/// One step of the compressed stream: copy `length` bytes from `offset`
/// bytes back, then emit `next_byte`.
#[derive(Debug, Clone, Copy, PartialEq, Eq, Structural)]
pub struct LZ77Token {
    pub offset: u8,
    pub length: u8,
    pub next_byte: u8,
}

/// How many bytes from `a` on equal those from `b` on, up to `cap` bytes
/// and the end of the data.
pub open spec fn match_len(data: Seq<u8>, a: int, b: int, cap: nat) -> nat
    decreases cap,
{
    if cap == 0 || b >= data.len() || data[a] != data[b] {
        0
    } else {
        1 + match_len(data, a + 1, b + 1, (cap - 1) as nat)
    }
}

/// Where the search window of position `pos` starts.
pub open spec fn window_start(pos: int) -> int {
    if pos > 255 {
        pos - 255
    } else {
        0
    }
}

/// The best match for `pos` among the starts in `[window_start(pos), upto)`:
/// the earliest one of the greatest length, as (distance back, length).
pub open spec fn best_match(data: Seq<u8>, pos: int, upto: int) -> (int, nat)
    decreases upto - window_start(pos),
{
    if upto <= window_start(pos) {
        (0, 0)
    } else {
        let before = best_match(data, pos, upto - 1);
        let here = match_len(data, upto - 1, pos, 255);
        if here > before.1 {
            (pos - (upto - 1), here)
        } else {
            before
        }
    }
}

/// The token the greedy parse emits at `pos`.
pub open spec fn token_at(data: Seq<u8>, pos: int) -> LZ77Token {
    let best = best_match(data, pos, pos);
    LZ77Token {
        offset: best.0 as u8,
        length: best.1 as u8,
        next_byte: if pos + best.1 < data.len() {
            data[pos + best.1]
        } else {
            0
        },
    }
}

/// How far the token at `pos` advances: past its match and its literal.
pub open spec fn step_at(data: Seq<u8>, pos: int) -> int {
    (best_match(data, pos, pos).1 + 1) as int
}

/// The greedy parse of the data from `pos` on.
pub open spec fn greedy_tokens(data: Seq<u8>, pos: int) -> Seq<LZ77Token>
    decreases data.len() - pos,
{
    if pos < 0 || pos >= data.len() {
        Seq::empty()
    } else {
        let next = pos + step_at(data, pos);
        if next >= data.len() {
            seq![token_at(data, pos)]
        } else {
            seq![token_at(data, pos)] + greedy_tokens(data, next)
        }
    }
}

/// `out` extended by `count` bytes copied from `from` on; a byte that is
/// not there yet counts as zero.
pub open spec fn copy_run(out: Seq<u8>, from: int, count: nat) -> Seq<u8>
    decreases count,
{
    if count == 0 {
        out
    } else {
        let byte: u8 = if 0 <= from < out.len() {
            out[from]
        } else {
            0
        };
        copy_run(out.push(byte), from + 1, (count - 1) as nat)
    }
}

/// `out` after one token.
pub open spec fn apply_token(out: Seq<u8>, t: LZ77Token) -> Seq<u8> {
    let copied = if t.offset > 0 {
        let start = if out.len() >= t.offset {
            out.len() - t.offset
        } else {
            0
        };
        copy_run(out, start, t.length as nat)
    } else {
        out
    };
    copied.push(t.next_byte)
}

/// What the first `n` tokens decode to.
pub open spec fn decoded(tokens: Seq<LZ77Token>, n: nat) -> Seq<u8>
    decreases n,
{
    if n == 0 {
        Seq::empty()
    } else {
        apply_token(decoded(tokens, (n - 1) as nat), tokens[n - 1])
    }
}

/// Length of the match between the bytes from `offset` and those from `end`.
pub fn matching(data: &[u8], offset: usize, end: usize) -> (len: u8)
    requires
        offset < end,
    ensures
        len == match_len(data@, offset as int, end as int, 255),
{
    let mut a = offset;
    let mut b = end;
    let mut len: u8 = 0;
    while a < b && b < data.len() && data[a] == data[b] && len < 255
        invariant
            a < b,
            a == offset + len,
            b == end + len,
            len <= 255,
            match_len(data@, offset as int, end as int, 255) == len + match_len(
                data@,
                a as int,
                b as int,
                (255 - len) as nat,
            ),
        decreases 255 - len,
    {
        a += 1;
        b += 1;
        len += 1;
    }
    len
}

/// The longest match for `pos` within the window before it, as
/// (distance back, length); the earliest start wins a tie.
pub fn find_longest_match(data: &[u8], pos: usize) -> (best: (u8, u8))
    requires
        pos <= data@.len(),
    ensures
        best.0 == best_match(data@, pos as int, pos as int).0,
        best.1 == best_match(data@, pos as int, pos as int).1,
{
    let mut best_offset: u8 = 0;
    let mut best_len: u8 = 0;
    let start: usize = if pos > 255 {
        pos - 255
    } else {
        0
    };
    let mut offset = start;
    while offset < pos
        invariant
            start == window_start(pos as int),
            start <= offset <= pos,
            pos <= data@.len(),
            best_offset == best_match(data@, pos as int, offset as int).0,
            best_len == best_match(data@, pos as int, offset as int).1,
        decreases pos - offset,
    {
        let len = matching(data, offset, pos);
        if len > best_len {
            best_offset = (pos - offset) as u8;
            best_len = len;
        }
        offset += 1;
    }
    (best_offset, best_len)
}

/// The match found at a position never runs past the end of the data.
pub proof fn lemma_match_in_bounds(data: Seq<u8>, a: int, b: int, cap: nat)
    requires
        0 <= a < b <= data.len(),
    ensures
        b + match_len(data, a, b, cap) <= data.len(),
        match_len(data, a, b, cap) <= cap,
    decreases cap,
{
    if !(cap == 0 || b >= data.len() || data[a] != data[b]) {
        lemma_match_in_bounds(data, a + 1, b + 1, (cap - 1) as nat);
    }
}

/// The best match is a match from within the window: it stays in bounds.
pub proof fn lemma_best_in_bounds(data: Seq<u8>, pos: int, upto: int)
    requires
        0 <= pos <= data.len(),
        upto <= pos,
    ensures
        pos + best_match(data, pos, upto).1 <= data.len(),
        best_match(data, pos, upto).1 <= 255,
        0 <= best_match(data, pos, upto).0 <= 255,
    decreases upto - window_start(pos),
{
    if upto > window_start(pos) {
        lemma_best_in_bounds(data, pos, upto - 1);
        lemma_match_in_bounds(data, upto - 1, pos, 255);
    }
}

/// LZ77 compression: the greedy parse of the input.
pub fn lz77_compress(input: &[u8]) -> (tokens: Vec<LZ77Token>)
    ensures
        tokens@ == greedy_tokens(input@, 0),
{
    let mut tokens: Vec<LZ77Token> = Vec::new();
    let mut pos: usize = 0;
    while pos < input.len()
        invariant
            pos <= input@.len(),
            tokens@ + greedy_tokens(input@, pos as int) == greedy_tokens(input@, 0),
        decreases input@.len() - pos,
    {
        let (offset, length) = find_longest_match(input, pos);
        proof {
            lemma_best_in_bounds(input@, pos as int, pos as int);
        }
        let after = pos + length as usize;
        let next_byte = if after < input.len() {
            input[after]
        } else {
            0
        };
        let token = LZ77Token { offset, length, next_byte };
        proof {
            assert(token == token_at(input@, pos as int));
            let rest = greedy_tokens(input@, pos + step_at(input@, pos as int));
            assert(rest.len() == 0 || pos + step_at(input@, pos as int) < input@.len());
            assert(greedy_tokens(input@, pos as int) =~= seq![token] + rest);
            assert(tokens@.push(token) + rest =~= tokens@ + (seq![token] + rest));
        }
        tokens.push(token);
        if after >= input.len() {
            proof {
                assert(greedy_tokens(input@, after + 1) =~= Seq::<LZ77Token>::empty());
                assert(tokens@ + Seq::<LZ77Token>::empty() =~= tokens@);
            }
            return tokens;
        }
        pos = after + 1;
    }
    proof {
        assert(tokens@ + Seq::<LZ77Token>::empty() =~= tokens@);
    }
    tokens
}

/// LZ77 decompression.
pub fn lz77_decompress(tokens: &[LZ77Token]) -> (output: Vec<u8>)
    ensures
        output@ == decoded(tokens@, tokens@.len()),
{
    let mut output: Vec<u8> = Vec::new();
    let mut n: usize = 0;
    while n < tokens.len()
        invariant
            n <= tokens@.len(),
            output@ == decoded(tokens@, n as nat),
        decreases tokens@.len() - n,
    {
        let token = tokens[n];
        if token.offset > 0 {
            let start: usize = if output.len() >= token.offset as usize {
                output.len() - token.offset as usize
            } else {
                0
            };
            let ghost base = output@;
            let mut i: u8 = 0;
            while i < token.length
                invariant
                    i <= token.length,
                    start <= base.len(),
                    output@.len() == base.len() + i,
                    copy_run(output@, start + i, (token.length - i) as nat) == copy_run(
                        base,
                        start as int,
                        token.length as nat,
                    ),
                decreases token.length - i,
            {
                let cur = output.len();
                assert(start + i <= cur);
                let at = start + i as usize;
                let copied_byte = if at < output.len() {
                    output[at]
                } else {
                    0
                };
                output.push(copied_byte);
                i += 1;
            }
        }
        output.push(token.next_byte);
        n += 1;
    }
    output
}

/// What the tokens decode to, starting from `out`.
pub open spec fn decode_from(out: Seq<u8>, tokens: Seq<LZ77Token>) -> Seq<u8>
    decreases tokens.len(),
{
    if tokens.len() == 0 {
        out
    } else {
        decode_from(apply_token(out, tokens[0]), tokens.drop_first())
    }
}

/// Decoding one more token applies it to what the tokens before decode to.
pub proof fn lemma_decode_push(out: Seq<u8>, tokens: Seq<LZ77Token>, t: LZ77Token)
    ensures
        decode_from(out, tokens.push(t)) == apply_token(decode_from(out, tokens), t),
    decreases tokens.len(),
{
    if tokens.len() == 0 {
        assert(tokens.push(t).drop_first() =~= Seq::<LZ77Token>::empty());
        assert(decode_from(apply_token(out, t), Seq::<LZ77Token>::empty()) == apply_token(out, t));
    } else {
        assert(tokens.push(t).drop_first() =~= tokens.drop_first().push(t));
        lemma_decode_push(apply_token(out, tokens[0]), tokens.drop_first(), t);
    }
}

/// Decoding from nothing, token by token, is decoding all the tokens.
pub proof fn lemma_decoded_is_decode_from(tokens: Seq<LZ77Token>, n: nat)
    requires
        n <= tokens.len(),
    ensures
        decoded(tokens, n) == decode_from(Seq::empty(), tokens.take(n as int)),
    decreases n,
{
    if n == 0 {
        assert(tokens.take(0) =~= Seq::<LZ77Token>::empty());
    } else {
        lemma_decoded_is_decode_from(tokens, (n - 1) as nat);
        assert(tokens.take(n as int) =~= tokens.take(n - 1).push(tokens[n - 1]));
        lemma_decode_push(Seq::empty(), tokens.take(n - 1), tokens[n - 1]);
    }
}

/// Within a match, the bytes agree.
pub proof fn lemma_match_agrees(data: Seq<u8>, a: int, b: int, cap: nat, i: int)
    requires
        0 <= a < b,
        0 <= i < match_len(data, a, b, cap),
    ensures
        b + i < data.len(),
        data[a + i] == data[b + i],
    decreases cap,
{
    if i > 0 {
        lemma_match_agrees(data, a + 1, b + 1, (cap - 1) as nat, i - 1);
    }
}

/// The best match is a match: of positive length only at a positive
/// distance within the window.
pub proof fn lemma_best_is_match(data: Seq<u8>, pos: int, upto: int)
    requires
        0 <= pos <= data.len(),
        upto <= pos,
    ensures
        ({
            let best = best_match(data, pos, upto);
            &&& best.1 == 0 ==> best.0 == 0
            &&& best.1 > 0 ==> 1 <= best.0 <= pos && best.0 <= 255 && best.1 == match_len(
                data,
                pos - best.0,
                pos,
                255,
            )
        }),
    decreases upto - window_start(pos),
{
    if upto > window_start(pos) {
        lemma_best_is_match(data, pos, upto - 1);
    }
}

/// Copying a run that agrees with what follows extends a prefix of the
/// data by the run, even where the run overlaps what it writes.
pub proof fn lemma_copy_extends(data: Seq<u8>, p: int, d: int, c: nat)
    requires
        1 <= d <= p,
        p + c <= data.len(),
        forall|j: int| p <= j < p + c ==> data[j - d] == #[trigger] data[j],
    ensures
        copy_run(data.subrange(0, p), p - d, c) == data.subrange(0, p + c),
    decreases c,
{
    if c > 0 {
        let out = data.subrange(0, p);
        assert(data[p - d] == data[p]);
        assert(out.push(out[p - d]) =~= data.subrange(0, p + 1));
        lemma_copy_extends(data, p + 1, d, (c - 1) as nat);
    } else {
        assert(data.subrange(0, p + 0) == data.subrange(0, p));
    }
}

/// The token at `pos` extends the first `pos` bytes of the data by its
/// match and its literal; past the end of the data the literal is a zero.
pub proof fn lemma_token_extends(data: Seq<u8>, pos: int)
    requires
        0 <= pos < data.len(),
    ensures
        ({
            let out = apply_token(data.subrange(0, pos), token_at(data, pos));
            let next = pos + step_at(data, pos);
            if next <= data.len() {
                out == data.subrange(0, next)
            } else {
                out == data.push(0)
            }
        }),
{
    let best = best_match(data, pos, pos);
    let t = token_at(data, pos);
    let prefix = data.subrange(0, pos);
    lemma_best_in_bounds(data, pos, pos);
    lemma_best_is_match(data, pos, pos);
    let len = best.1 as int;
    assert(t.offset == best.0 && t.length == best.1);
    let copied = if t.offset > 0 {
        copy_run(prefix, pos - best.0, best.1)
    } else {
        prefix
    };
    if best.1 > 0 {
        assert forall|j: int| pos <= j < pos + best.1 implies data[j - best.0] == #[trigger] data[j] by {
            lemma_match_agrees(data, pos - best.0, pos, 255, j - pos);
        }
        lemma_copy_extends(data, pos, best.0, best.1);
    } else {
        assert(data.subrange(0, pos + 0) == prefix);
    }
    assert(copied == data.subrange(0, pos + len));
    if pos + len < data.len() {
        assert(copied.push(data[pos + len]) =~= data.subrange(0, pos + len + 1));
    } else {
        assert(data.subrange(0, data.len() as int) =~= data);
    }
}

/// From `pos` on, the greedy parse decodes to the rest of the data, with
/// one zero more where the last match runs to the very end.
pub proof fn lemma_greedy_decodes(data: Seq<u8>, pos: int)
    requires
        0 <= pos <= data.len(),
    ensures
        ({
            let out = decode_from(data.subrange(0, pos), greedy_tokens(data, pos));
            out == data || out == data.push(0)
        }),
    decreases data.len() - pos,
{
    if pos >= data.len() {
        assert(data.subrange(0, pos) =~= data);
    } else {
        let t = token_at(data, pos);
        let next = pos + step_at(data, pos);
        lemma_token_extends(data, pos);
        let prefix = data.subrange(0, pos);
        let after = apply_token(prefix, t);
        let tokens = greedy_tokens(data, pos);
        if next >= data.len() {
            assert(tokens == seq![t]);
            assert(tokens[0] == t);
            assert(tokens.drop_first() =~= Seq::<LZ77Token>::empty());
            assert(decode_from(prefix, tokens) == decode_from(after, Seq::<LZ77Token>::empty()));
            assert(decode_from(after, Seq::<LZ77Token>::empty()) == after);
            if next == data.len() {
                assert(data.subrange(0, next) =~= data);
            }
        } else {
            lemma_greedy_decodes(data, next);
            let rest = greedy_tokens(data, next);
            assert(tokens == seq![t] + rest);
            assert(tokens[0] == t);
            assert(tokens.drop_first() =~= rest);
            assert(decode_from(prefix, tokens) == decode_from(after, rest));
        }
    }
}

/// Round trip: what compression emits decodes to the input, or to the
/// input and one zero byte where its last match runs to the very end.
pub proof fn lemma_lz77_round_trip(data: Seq<u8>)
    ensures
        ({
            let tokens = greedy_tokens(data, 0);
            decoded(tokens, tokens.len()) == data || decoded(tokens, tokens.len()) == data.push(0)
        }),
{
    let tokens = greedy_tokens(data, 0);
    lemma_decoded_is_decode_from(tokens, tokens.len());
    assert(tokens.take(tokens.len() as int) =~= tokens);
    lemma_greedy_decodes(data, 0);
    assert(data.subrange(0, 0) =~= Seq::<u8>::empty());
}

/// Room in the buffer that the byte-stream decoder works in.
pub const STREAM_BUFFER: usize = 256;

/// Why a byte stream does not decode.
#[derive(Clone, Copy, Debug, PartialEq, Eq, Structural)]
pub enum StreamError {
    /// A copy marker is the last byte: its length is missing.
    Truncated,
    /// A copy reaches back before the start of the output.
    BadOffset,
    /// The output does not fit the buffer.
    TooLong,
}

/// The decoding of a byte stream from position `pos` on, onto `out`: a
/// zero byte ends it; a byte with the top bit set, followed by a length,
/// copies that many bytes from as far back as its low seven bits say;
/// any other byte stands for itself.
pub open spec fn stream_decoded(data: Seq<u8>, pos: int, out: Seq<u8>) -> Result<
    Seq<u8>,
    StreamError,
>
    decreases data.len() - pos,
{
    if pos < 0 || pos >= data.len() || data[pos] == 0 {
        Ok(out)
    } else if data[pos] >= 0x80 {
        let offset = data[pos] as int - 0x80;
        if pos + 1 >= data.len() {
            Err(StreamError::Truncated)
        } else {
            let length = data[pos + 1] as nat;
            if length > 0 && (offset == 0 || offset > out.len()) {
                Err(StreamError::BadOffset)
            } else if out.len() + length > STREAM_BUFFER {
                Err(StreamError::TooLong)
            } else {
                stream_decoded(data, pos + 2, copy_run(out, out.len() - offset, length))
            }
        }
    } else if out.len() + 1 > STREAM_BUFFER {
        Err(StreamError::TooLong)
    } else {
        stream_decoded(data, pos + 1, out.push(data[pos]))
    }
}

/// Decode a byte stream in place: on success `data` holds the decoded
/// bytes; on failure it is left as it was.
pub fn decompress_lz77_in_place(data: &mut Vec<u8>) -> (res: Result<(), StreamError>)
    ensures
        match res {
            Ok(()) => stream_decoded(old(data)@, 0, Seq::empty()) == Ok::<Seq<u8>, StreamError>(
                final(data)@,
            ),
            Err(e) => stream_decoded(old(data)@, 0, Seq::empty()) == Err::<Seq<u8>, StreamError>(e)
                && final(data)@ == old(data)@,
        },
{
    let length = data.len();
    let mut output: Vec<u8> = Vec::new();
    let mut read_pos: usize = 0;
    while read_pos < length
        invariant
            length == data@.len(),
            data@ == old(data)@,
            read_pos <= length,
            output@.len() <= STREAM_BUFFER,
            stream_decoded(data@, read_pos as int, output@) == stream_decoded(
                data@,
                0,
                Seq::empty(),
            ),
        ensures
            read_pos >= length || data@[read_pos as int] == 0,
        decreases length - read_pos,
    {
        let byte = data[read_pos];
        if byte == 0 {
            break;
        } else if byte >= 0x80 {
            let offset = (byte - 0x80) as usize;
            if read_pos + 1 >= length {
                return Err(StreamError::Truncated);
            }
            let count = data[read_pos + 1] as usize;
            if count > 0 && (offset == 0 || offset > output.len()) {
                return Err(StreamError::BadOffset);
            }
            if output.len() + count > STREAM_BUFFER {
                return Err(StreamError::TooLong);
            }
            let ghost base = output@;
            let ghost from = base.len() - offset;
            if count > 0 {
                let start = output.len() - offset;
                let mut i: usize = 0;
                while i < count
                    invariant
                        i <= count,
                        start == from,
                        0 <= from < base.len(),
                        output@.len() == base.len() + i,
                        base.len() + count <= STREAM_BUFFER,
                        copy_run(output@, from + i, (count - i) as nat) == copy_run(
                            base,
                            from,
                            count as nat,
                        ),
                    decreases count - i,
                {
                    let copied = output[start + i];
                    output.push(copied);
                    i += 1;
                }
            }
            read_pos += 2;
        } else {
            if output.len() + 1 > STREAM_BUFFER {
                return Err(StreamError::TooLong);
            }
            output.push(byte);
            read_pos += 1;
        }
    }
    *data = output;
    Ok(())
}

} // verus!
