//! Escaping bytes: chosen bytes are replaced by an escape symbol and a
//! stand-in, and the escape symbol by itself written twice.

use vstd::prelude::*;

verus! {

/// The last index at which `list` holds `c`, or -1.
pub open spec fn last_index(list: Seq<u8>, c: u8) -> int
    decreases list.len(),
{
    if list.len() == 0 {
        -1
    } else if list.last() == c {
        list.len() - 1
    } else {
        last_index(list.drop_last(), c)
    }
}

/// What a single byte is written as.
pub open spec fn escaped_byte(c: u8, esc: u8, from: Seq<u8>, to: Seq<u8>) -> Seq<u8> {
    if c == esc {
        seq![esc, esc]
    } else if last_index(from, c) >= 0 {
        seq![esc, to[last_index(from, c)]]
    } else {
        seq![c]
    }
}

/// What a byte string is written as.
pub open spec fn escaped(s: Seq<u8>, esc: u8, from: Seq<u8>, to: Seq<u8>) -> Seq<u8>
    decreases s.len(),
{
    if s.len() == 0 {
        Seq::empty()
    } else {
        escaped_byte(s[0], esc, from, to) + escaped(s.skip(1), esc, from, to)
    }
}

/// `c` put before what was read, if anything was.
pub open spec fn put_before(c: u8, rest: Option<Seq<u8>>) -> Option<Seq<u8>> {
    match rest {
        Some(r) => Some(seq![c] + r),
        None => None,
    }
}

/// `out` put before what was read, if anything was.
pub open spec fn put_all_before(out: Seq<u8>, rest: Option<Seq<u8>>) -> Option<Seq<u8>> {
    match rest {
        Some(r) => Some(out + r),
        None => None,
    }
}

/// The bytes that `s` stands for from position `pos` on, `limit` of them at
/// most; nothing if an escape symbol stands at the end of `s`, or before a
/// byte that is no stand-in.
pub open spec fn unescaped(
    s: Seq<u8>,
    pos: int,
    limit: nat,
    esc: u8,
    from: Seq<u8>,
    to: Seq<u8>,
) -> Option<Seq<u8>>
    decreases s.len() - pos,
{
    if limit == 0 || pos < 0 || pos >= s.len() {
        Some(Seq::empty())
    } else if s[pos] != esc {
        put_before(s[pos], unescaped(s, pos + 1, (limit - 1) as nat, esc, from, to))
    } else if pos + 1 >= s.len() {
        None
    } else if s[pos + 1] == esc {
        put_before(esc, unescaped(s, pos + 2, (limit - 1) as nat, esc, from, to))
    } else if last_index(to, s[pos + 1]) < 0 {
        None
    } else {
        put_before(
            from[last_index(to, s[pos + 1])],
            unescaped(s, pos + 2, (limit - 1) as nat, esc, from, to),
        )
    }
}

fn find_last(list: &[u8], c: u8) -> (found: Option<usize>)
    ensures
        match found {
            Some(i) => i == last_index(list@, c) && i < list.len(),
            None => last_index(list@, c) == -1,
        },
{
    let mut k: usize = list.len();
    assert(list@.take(k as int) =~= list@);
    while k > 0
        invariant
            k <= list.len(),
            last_index(list@, c) == last_index(list@.take(k as int), c),
        decreases k,
    {
        assert(list@.take(k as int).drop_last() =~= list@.take(k - 1));
        if list[k - 1] == c {
            return Some(k - 1);
        }
        k -= 1;
    }
    None
}

proof fn lemma_escaped_push(s: Seq<u8>, c: u8, esc: u8, from: Seq<u8>, to: Seq<u8>)
    ensures
        escaped(s.push(c), esc, from, to) == escaped(s, esc, from, to) + escaped_byte(
            c,
            esc,
            from,
            to,
        ),
    decreases s.len(),
{
    if s.len() == 0 {
        assert(s.push(c).skip(1) =~= Seq::<u8>::empty());
        assert(s.push(c)[0] == c);
        assert(escaped(s.push(c).skip(1), esc, from, to) =~= Seq::<u8>::empty());
        assert(escaped(s.push(c), esc, from, to) == escaped_byte(c, esc, from, to) + escaped(
            s.push(c).skip(1),
            esc,
            from,
            to,
        ));
        assert(escaped(s.push(c), esc, from, to) =~= escaped_byte(c, esc, from, to));
        assert(escaped(s, esc, from, to) + escaped_byte(c, esc, from, to) =~= escaped_byte(
            c,
            esc,
            from,
            to,
        ));
    } else {
        lemma_escaped_push(s.skip(1), c, esc, from, to);
        assert(s.push(c).skip(1) =~= s.skip(1).push(c));
        assert(escaped(s.push(c), esc, from, to) =~= escaped(s, esc, from, to) + escaped_byte(
            c,
            esc,
            from,
            to,
        ));
    }
}

/// Writes `input` with the escape symbol `escape_symbol`: the escape symbol
/// itself becomes two escape symbols, a byte of `from_symbols` becomes the
/// escape symbol and the byte at the same place of `to_symbols`, and every
/// other byte stays. Of a byte listed twice the last place counts.
pub fn escape(input: &[u8], escape_symbol: u8, from_symbols: &[u8], to_symbols: &[u8]) -> (output:
    Vec<u8>)
    requires
        from_symbols.len() == to_symbols.len(),
    ensures
        output@ == escaped(input@, escape_symbol, from_symbols@, to_symbols@),
{
    let mut output: Vec<u8> = Vec::new();
    let mut k: usize = 0;
    assert(input@.take(0) =~= Seq::<u8>::empty());
    while k < input.len()
        invariant
            k <= input.len(),
            from_symbols.len() == to_symbols.len(),
            output@ == escaped(input@.take(k as int), escape_symbol, from_symbols@, to_symbols@),
        decreases input.len() - k,
    {
        let cur_char = input[k];
        proof {
            lemma_escaped_push(
                input@.take(k as int),
                cur_char,
                escape_symbol,
                from_symbols@,
                to_symbols@,
            );
            assert(input@.take(k as int).push(cur_char) =~= input@.take(k + 1));
        }
        if cur_char == escape_symbol {
            output.push(escape_symbol);
            output.push(escape_symbol);
        } else {
            match find_last(from_symbols, cur_char) {
                Some(i) => {
                    output.push(escape_symbol);
                    output.push(to_symbols[i]);
                },
                None => {
                    output.push(cur_char);
                },
            }
        }
        assert(output@ =~= escaped(input@.take(k + 1), escape_symbol, from_symbols@, to_symbols@));
        k += 1;
    }
    assert(input@.take(k as int) =~= input@);
    output
}

/// Reads back what `escape` has written, `limit` bytes of the plain text at
/// most. `None` where the input cannot have been written by `escape`: where
/// an escape symbol is the last byte, or stands before a byte that is
/// neither the escape symbol nor in `to_symbols`.
pub fn unescape(
    input: &[u8],
    limit: usize,
    escape_symbol: u8,
    from_symbols: &[u8],
    to_symbols: &[u8],
) -> (output: Option<Vec<u8>>)
    requires
        from_symbols.len() == to_symbols.len(),
    ensures
        match output {
            Some(bytes) => Some(bytes@) == unescaped(
                input@,
                0,
                limit as nat,
                escape_symbol,
                from_symbols@,
                to_symbols@,
            ),
            None => unescaped(input@, 0, limit as nat, escape_symbol, from_symbols@, to_symbols@)
                == None::<Seq<u8>>,
        },
{
    let mut output: Vec<u8> = Vec::new();
    let mut pos: usize = 0;
    let mut count: usize = 0;
    let ghost whole = unescaped(input@, 0, limit as nat, escape_symbol, from_symbols@, to_symbols@);
    proof {
        match whole {
            Some(r) => {
                assert(output@ + r =~= r);
            },
            None => {},
        }
    }
    while count < limit && pos < input.len()
        invariant
            count <= limit,
            pos <= input.len(),
            from_symbols.len() == to_symbols.len(),
            whole == unescaped(input@, 0, limit as nat, escape_symbol, from_symbols@, to_symbols@),
            whole == put_all_before(
                output@,
                unescaped(
                    input@,
                    pos as int,
                    (limit - count) as nat,
                    escape_symbol,
                    from_symbols@,
                    to_symbols@,
                ),
            ),
        decreases limit - count,
    {
        let cur_char = input[pos];
        let ghost before = output@;
        let ghost step = if cur_char != escape_symbol {
            1
        } else {
            2int
        };
        let ghost rest = unescaped(
            input@,
            pos + step,
            (limit - count - 1) as nat,
            escape_symbol,
            from_symbols@,
            to_symbols@,
        );
        if cur_char == escape_symbol {
            if pos + 1 >= input.len() {
                return None;
            }
            let next_char = input[pos + 1];
            if next_char == escape_symbol {
                output.push(escape_symbol);
            } else {
                match find_last(to_symbols, next_char) {
                    Some(i) => {
                        output.push(from_symbols[i]);
                    },
                    None => {
                        return None;
                    },
                }
            }
            pos += 2;
        } else {
            output.push(cur_char);
            pos += 1;
        }
        count += 1;
        proof {
            match rest {
                Some(r) => {
                    assert(before + (seq![output@.last()] + r) =~= output@ + r);
                },
                None => {},
            }
        }
    }
    proof {
        match whole {
            Some(r) => {
                assert(output@ + Seq::<u8>::empty() =~= output@);
            },
            None => {},
        }
    }
    Some(output)
}

/// The stand-ins are different from each other and from the escape symbol.
pub open spec fn is_reversible(esc: u8, from: Seq<u8>, to: Seq<u8>) -> bool {
    &&& from.len() == to.len()
    &&& forall|i: int| 0 <= i < to.len() ==> #[trigger] to[i] != esc
    &&& forall|i: int, j: int| 0 <= i < j < to.len() ==> #[trigger] to[i] != #[trigger] to[j]
}

proof fn lemma_last_index(list: Seq<u8>, c: u8)
    ensures
        -1 <= last_index(list, c) < list.len(),
        last_index(list, c) >= 0 ==> list[last_index(list, c)] == c,
        forall|i: int| last_index(list, c) < i < list.len() ==> #[trigger] list[i] != c,
    decreases list.len(),
{
    if list.len() > 0 && list.last() != c {
        lemma_last_index(list.drop_last(), c);
        assert forall|i: int| last_index(list, c) < i < list.len() implies #[trigger] list[i]
            != c by {
            if i < list.len() - 1 {
                assert(list.drop_last()[i] == list[i]);
            }
        }
    }
}

proof fn lemma_unescaped_skip(s: Seq<u8>, pos: int, limit: nat, esc: u8, from: Seq<u8>, to: Seq<u8>)
    requires
        0 <= pos <= s.len(),
    ensures
        unescaped(s, pos, limit, esc, from, to) == unescaped(s.skip(pos), 0, limit, esc, from, to),
    decreases s.len() - pos,
{
    let tail = s.skip(pos);
    if limit > 0 && pos < s.len() {
        let less = (limit - 1) as nat;
        assert(tail[0] == s[pos]);
        lemma_unescaped_skip(s, pos + 1, less, esc, from, to);
        lemma_unescaped_skip(tail, 1, less, esc, from, to);
        assert(tail.skip(1) =~= s.skip(pos + 1));
        if pos + 1 < s.len() {
            assert(tail[1] == s[pos + 1]);
            lemma_unescaped_skip(s, pos + 2, less, esc, from, to);
            lemma_unescaped_skip(tail, 2, less, esc, from, to);
            assert(tail.skip(2) =~= s.skip(pos + 2));
        }
    }
}

/// What `escape` writes, `unescape` reads back as it was.
pub proof fn lemma_escape_round_trip(s: Seq<u8>, limit: nat, esc: u8, from: Seq<u8>, to: Seq<u8>)
    requires
        is_reversible(esc, from, to),
        limit >= s.len(),
    ensures
        unescaped(escaped(s, esc, from, to), 0, limit, esc, from, to) == Some(s),
    decreases s.len(),
{
    let code = escaped(s, esc, from, to);
    if s.len() == 0 {
        assert(s =~= Seq::<u8>::empty());
    } else {
        let c = s[0];
        let head = escaped_byte(c, esc, from, to);
        let rest = escaped(s.skip(1), esc, from, to);
        let less = (limit - 1) as nat;
        lemma_escape_round_trip(s.skip(1), less, esc, from, to);
        lemma_unescaped_skip(code, head.len() as int, less, esc, from, to);
        assert(code.skip(head.len() as int) =~= rest);
        assert(seq![c] + s.skip(1) =~= s);
        lemma_last_index(from, c);
        if c == esc {
            assert(code[0] == esc && code[1] == esc);
        } else if last_index(from, c) >= 0 {
            let i = last_index(from, c);
            assert(code[0] == esc && code[1] == to[i]);
            lemma_last_index(to, to[i]);
            let j = last_index(to, to[i]);
            if j < 0 {
                assert(to[i] != to[i]);
            } else if j < i {
                assert(to[j] != to[i]);
            } else if j > i {
                assert(to[i] != to[j]);
            }
        } else {
            assert(code[0] == c);
        }
    }
}

} // verus!
