//! Request framing and chunked transmission.
//!
//! A request is the command name, each argument prefixed by a single
//! space, and one trailing newline; no escaping exists, so an argument
//! containing whitespace is indistinguishable from several arguments — a
//! protocol limitation that is preserved, not fixed. The encoded bytes
//! are written to the transport in consecutive runs of at most the
//! configured chunk size, to accommodate slow or unreliable transports;
//! chunking only paces the writes, it never alters the payload.

use vstd::prelude::*;
use vstd::seq_lib::group_seq_lib_default;
use vstd::string::*;
use vstd::utf8::encode_utf8;

verus! {

broadcast use group_seq_lib_default;

/// Each argument, prefixed by a single space, in order.
pub open spec fn spec_joined_args(args: Seq<Seq<char>>) -> Seq<char>
    decreases args.len(),
{
    if args.len() == 0 {
        seq![]
    } else {
        seq![' '] + args[0] + spec_joined_args(args.drop_first())
    }
}

/// The text of one request: command, space-prefixed arguments, newline.
pub open spec fn spec_request(command: Seq<char>, args: Seq<Seq<char>>) -> Seq<char> {
    command + spec_joined_args(args) + seq!['\n']
}

/// Encode one request as the protocol frames it.
pub fn encode_request(command: &str, args: &Vec<String>) -> (r: String)
    ensures
        r@ == spec_request(command@, args.deep_view()),
{
    let ghost av = args.deep_view();
    let mut r = String::from_str(command);
    proof {
        assert(av.skip(0) =~~= av);
    }
    let mut i: usize = 0;
    while i < args.len()
        invariant
            i <= args@.len(),
            av == args.deep_view(),
            spec_request(command@, av) == r@ + spec_joined_args(av.skip(i as int)) + seq!['\n'],
        decreases args@.len() - i,
    {
        let ghost r0 = r@;
        r.append(" ");
        r.append(args[i].as_str());
        proof {
            reveal_strlit(" ");
            assert(" "@ =~= seq![' ']);
            assert(r@ =~= r0 + seq![' '] + av[i as int]);
            assert(av.skip(i as int)[0] == av[i as int]);
            assert(av.skip(i as int).drop_first() =~~= av.skip(i as int + 1));
            assert(r0 + (seq![' '] + av[i as int] + spec_joined_args(av.skip(i as int + 1)))
                + seq!['\n'] =~= (r0 + seq![' '] + av[i as int]) + spec_joined_args(
                av.skip(i as int + 1),
            ) + seq!['\n']);
        }
        i = i + 1;
    }
    let ghost r1 = r@;
    r.append("\n");
    proof {
        reveal_strlit("\n");
        assert("\n"@ =~= seq!['\n']);
        assert(r1 + spec_joined_args(av.skip(args@.len() as int)) + seq!['\n'] =~= r1
            + seq!['\n']);
    }
    r
}

/// The runs a payload is written in: consecutive pieces of at most
/// `chunk_size` bytes, or the whole payload in one piece when
/// `chunk_size` is 0.
pub open spec fn spec_chunks(data: Seq<u8>, chunk_size: nat) -> Seq<Seq<u8>>
    decreases data.len(),
{
    if chunk_size == 0 {
        seq![data]
    } else if data.len() == 0 {
        seq![]
    } else if data.len() <= chunk_size {
        seq![data]
    } else {
        seq![data.take(chunk_size as int)] + spec_chunks(data.skip(chunk_size as int), chunk_size)
    }
}

/// Concatenating the chunks gives back exactly the payload: chunking
/// affects pacing only, never what reaches the wire.
pub proof fn lemma_chunks_preserve_payload(data: Seq<u8>, chunk_size: nat)
    ensures
        spec_chunks(data, chunk_size).flatten() == data,
    decreases data.len(),
{
    if chunk_size == 0 || data.len() <= chunk_size {
        if chunk_size != 0 && data.len() == 0 {
            assert(spec_chunks(data, chunk_size).flatten() =~= data);
        } else {
            seq![data].lemma_flatten_one_element();
        }
    } else {
        lemma_chunks_preserve_payload(data.skip(chunk_size as int), chunk_size);
        let chunks = spec_chunks(data, chunk_size);
        assert(chunks.drop_first() =~~= spec_chunks(data.skip(chunk_size as int), chunk_size));
        assert(chunks.first() == data.take(chunk_size as int));
        assert(data.take(chunk_size as int) + data.skip(chunk_size as int) =~= data);
    }
}

/// The byte sequence written to the transport is the same whatever the
/// chunk size: two chunkings of one payload concatenate to the same
/// bytes.
pub proof fn lemma_chunking_payload_independent(data: Seq<u8>, a: nat, b: nat)
    ensures
        spec_chunks(data, a).flatten() == spec_chunks(data, b).flatten(),
{
    lemma_chunks_preserve_payload(data, a);
    lemma_chunks_preserve_payload(data, b);
}

/// Split a payload into the runs it is written in.
pub fn chunk_plan(data: &Vec<u8>, chunk_size: usize) -> (chunks: Vec<Vec<u8>>)
    ensures
        chunks.deep_view() == spec_chunks(data@, chunk_size as nat),
        chunks.deep_view().flatten() == data@,
{
    let mut chunks: Vec<Vec<u8>> = Vec::new();
    if chunk_size == 0 {
        let copy = vstd::slice::slice_to_vec(data.as_slice());
        chunks.push(copy);
        proof {
            assert(chunks.deep_view() =~~= seq![data@]);
            lemma_chunks_preserve_payload(data@, chunk_size as nat);
        }
        return chunks;
    }
    let n = data.len();
    let mut i: usize = 0;
    proof {
        assert(data@.skip(0) =~= data@);
        assert(chunks.deep_view() =~~= Seq::<Seq<u8>>::empty());
    }
    while i < n
        invariant
            chunk_size > 0,
            n == data@.len(),
            i <= data@.len(),
            spec_chunks(data@, chunk_size as nat) == chunks.deep_view() + spec_chunks(
                data@.skip(i as int),
                chunk_size as nat,
            ),
        decreases data@.len() - i,
    {
        let remaining = n - i;
        let step = if remaining < chunk_size {
            remaining
        } else {
            chunk_size
        };
        let mut c: Vec<u8> = Vec::new();
        let mut j: usize = 0;
        while j < step
            invariant
                j <= step,
                n == data@.len(),
                i + step <= n,
                c@ == data@.subrange(i as int, i as int + j as int),
            decreases step - j,
        {
            c.push(data[i + j]);
            proof {
                assert(c@ =~= data@.subrange(i as int, i as int + j as int + 1));
            }
            j = j + 1;
        }
        let ghost old_chunks = chunks.deep_view();
        let ghost tail = data@.skip(i as int);
        chunks.push(c);
        proof {
            assert(chunks.deep_view() =~~= old_chunks.push(c@));
            assert(old_chunks.push(c@) =~~= old_chunks + seq![c@]);
            if remaining <= chunk_size {
                assert(tail =~= data@.subrange(i as int, i as int + step as int));
                assert(spec_chunks(tail, chunk_size as nat) == seq![c@]);
                assert(data@.skip(i as int + step as int).len() == 0);
                assert(spec_chunks(data@.skip(i as int + step as int), chunk_size as nat)
                    =~~= Seq::<Seq<u8>>::empty());
                assert((old_chunks + seq![c@]) + Seq::<Seq<u8>>::empty() =~~= old_chunks + seq![
                    c@,
                ]);
            } else {
                assert(tail.take(chunk_size as int) =~= data@.subrange(
                    i as int,
                    i as int + step as int,
                ));
                assert(tail.skip(chunk_size as int) =~= data@.skip(i as int + step as int));
                assert((old_chunks + seq![c@]) + spec_chunks(
                    data@.skip(i as int + step as int),
                    chunk_size as nat,
                ) =~~= old_chunks + (seq![c@] + spec_chunks(
                    data@.skip(i as int + step as int),
                    chunk_size as nat,
                )));
            }
        }
        i = i + step;
    }
    proof {
        assert(data@.skip(i as int).len() == 0);
        assert(spec_chunks(data@.skip(i as int), chunk_size as nat) =~~= Seq::<Seq<u8>>::empty());
        assert(chunks.deep_view() + Seq::<Seq<u8>>::empty() =~~= chunks.deep_view());
        lemma_chunks_preserve_payload(data@, chunk_size as nat);
    }
    chunks
}

/// The chunked wire form of one request: the encoded text's UTF-8
/// bytes, split into the runs the session writes.
pub fn request_chunks(command: &str, args: &Vec<String>, chunk_size: usize) -> (chunks: Vec<
    Vec<u8>,
>)
    ensures
        chunks.deep_view() == spec_chunks(
            encode_utf8(spec_request(command@, args.deep_view())),
            chunk_size as nat,
        ),
        chunks.deep_view().flatten() == encode_utf8(spec_request(command@, args.deep_view())),
{
    let encoded = encode_request(command, args);
    let bytes = encoded.as_str().as_bytes_vec();
    chunk_plan(&bytes, chunk_size)
}

/// The flush request, framed and chunked: the single-space no-op
/// command with no arguments. Sending it and discarding the reply
/// drains any buffered unsolicited output before a real request.
pub fn flush_chunks(chunk_size: usize) -> (chunks: Vec<Vec<u8>>)
    ensures
        chunks.deep_view() == spec_chunks(encode_utf8(seq![' ', '\n']), chunk_size as nat),
        chunks.deep_view().flatten() == encode_utf8(seq![' ', '\n']),
{
    let args: Vec<String> = Vec::new();
    let chunks = request_chunks(" ", &args, chunk_size);
    proof {
        reveal_strlit(" ");
        assert(args.deep_view() =~~= Seq::<Seq<char>>::empty());
        assert(spec_request(" "@, args.deep_view()) =~= seq![' ', '\n']);
    }
    chunks
}

} // verus!
