//! Wire message model: the tagged set of protocol messages, their byte
//! encoding, and a total decoder for untrusted input.

use vstd::prelude::*;

verus! {

/// Identifies a block either by its height or by its hash.
#[derive(Clone, Copy, Debug, PartialEq, Eq)]
pub enum BlockId {
    Number(u64),
    Hash(u64),
}

/// Handshake announcement of a node's protocol version and chain head.
#[derive(Clone, Copy, Debug, PartialEq, Eq)]
pub struct Status {
    pub version: u64,
    pub best_number: u64,
    pub best_hash: u64,
    pub genesis_hash: u64,
}

/// A block as the protocol moves it: its height and its hash. Block contents
/// are the storage collaborator's concern, not the protocol's.
#[derive(Clone, Copy, Debug, PartialEq, Eq)]
pub struct Block {
    pub number: u64,
    pub hash: u64,
}

/// A request for a range of blocks, correlated to its response by `id`.
#[derive(Clone, Copy, Debug, PartialEq, Eq)]
pub struct BlockRequest {
    pub id: u64,
    pub from: BlockId,
    pub to: Option<BlockId>,
    pub max: Option<u64>,
}

/// The blocks served for the request with the same `id`.
#[derive(Clone, Debug, PartialEq, Eq)]
pub struct BlockResponse {
    pub id: u64,
    pub blocks: Vec<Block>,
}

/// Exactly one tagged variant per message.
#[derive(Clone, Debug, PartialEq, Eq)]
pub enum MessageBody {
    Status(Status),
    Transaction(Vec<u8>),
    BlockRequest(BlockRequest),
    BlockResponse(BlockResponse),
}

#[derive(Clone, Debug, PartialEq, Eq)]
pub struct Message {
    pub body: MessageBody,
}

/// Mathematical model of a message: payloads and block lists as sequences.
pub enum MessageView {
    Status(Status),
    Transaction(Seq<u8>),
    BlockRequest(BlockRequest),
    BlockResponse { id: u64, blocks: Seq<Block> },
}

impl View for Message {
    type V = MessageView;

    open spec fn view(&self) -> MessageView {
        match self.body {
            MessageBody::Status(st) => MessageView::Status(st),
            MessageBody::Transaction(p) => MessageView::Transaction(p@),
            MessageBody::BlockRequest(r) => MessageView::BlockRequest(r),
            MessageBody::BlockResponse(r) => MessageView::BlockResponse { id: r.id, blocks: r.blocks@ },
        }
    }
}

impl Message {
    pub fn new(body: MessageBody) -> (m: Message)
        ensures
            m.body == body,
    {
        Message { body }
    }
}

/// The sequence lengths a message can carry on the wire.
pub open spec fn wf_view(v: MessageView) -> bool {
    match v {
        MessageView::Transaction(p) => p.len() <= u64::MAX,
        MessageView::BlockResponse { id, blocks } => blocks.len() <= u64::MAX,
        _ => true,
    }
}

pub open spec fn u64_le(x: u64) -> Seq<u8> {
    seq![
        (x & 0xff) as u8,
        ((x >> 8) & 0xff) as u8,
        ((x >> 16) & 0xff) as u8,
        ((x >> 24) & 0xff) as u8,
        ((x >> 32) & 0xff) as u8,
        ((x >> 40) & 0xff) as u8,
        ((x >> 48) & 0xff) as u8,
        ((x >> 56) & 0xff) as u8,
    ]
}

pub open spec fn le_u64(s: Seq<u8>) -> u64
    recommends
        s.len() == 8,
{
    (s[0] as u64) | (s[1] as u64) << 8 | (s[2] as u64) << 16 | (s[3] as u64) << 24
        | (s[4] as u64) << 32 | (s[5] as u64) << 40 | (s[6] as u64) << 48 | (s[7] as u64) << 56
}

pub proof fn lemma_u64_le_inverse(x: u64)
    ensures
        u64_le(x).len() == 8,
        le_u64(u64_le(x)) == x,
{
    let s = u64_le(x);
    assert(((((x & 0xff) as u8) as u64) | ((((x >> 8) & 0xff) as u8) as u64) << 8
        | ((((x >> 16) & 0xff) as u8) as u64) << 16 | ((((x >> 24) & 0xff) as u8) as u64) << 24
        | ((((x >> 32) & 0xff) as u8) as u64) << 32 | ((((x >> 40) & 0xff) as u8) as u64) << 40
        | ((((x >> 48) & 0xff) as u8) as u64) << 48 | ((((x >> 56) & 0xff) as u8) as u64) << 56)
        == x) by (bit_vector);
    assert(le_u64(s) == x);
}

pub open spec fn enc_block_id(b: BlockId) -> Seq<u8> {
    match b {
        BlockId::Number(x) => seq![0u8] + u64_le(x),
        BlockId::Hash(x) => seq![1u8] + u64_le(x),
    }
}

pub open spec fn dec_block_id(s: Seq<u8>) -> Option<(BlockId, int)> {
    if s.len() >= 9 {
        if s[0] == 0u8 {
            Some((BlockId::Number(le_u64(s.subrange(1, 9))), 9))
        } else if s[0] == 1u8 {
            Some((BlockId::Hash(le_u64(s.subrange(1, 9))), 9))
        } else {
            None
        }
    } else {
        None
    }
}

pub open spec fn enc_opt_u64(o: Option<u64>) -> Seq<u8> {
    match o {
        Option::None => seq![0u8],
        Option::Some(x) => seq![1u8] + u64_le(x),
    }
}

pub open spec fn dec_opt_u64(s: Seq<u8>) -> Option<(Option<u64>, int)> {
    if s.len() >= 1 {
        if s[0] == 0u8 {
            Some((Option::None, 1))
        } else if s[0] == 1u8 {
            if s.len() >= 9 {
                Some((Option::Some(le_u64(s.subrange(1, 9))), 9))
            } else {
                None
            }
        } else {
            None
        }
    } else {
        None
    }
}

pub open spec fn enc_opt_block_id(o: Option<BlockId>) -> Seq<u8> {
    match o {
        Option::None => seq![0u8],
        Option::Some(b) => seq![1u8] + enc_block_id(b),
    }
}

pub open spec fn dec_opt_block_id(s: Seq<u8>) -> Option<(Option<BlockId>, int)> {
    if s.len() >= 1 {
        if s[0] == 0u8 {
            Some((Option::None, 1))
        } else if s[0] == 1u8 {
            match dec_block_id(s.subrange(1, s.len() as int)) {
                Some((b, c)) => Some((Option::Some(b), 1 + c)),
                None => None,
            }
        } else {
            None
        }
    } else {
        None
    }
}

pub open spec fn enc_block(b: Block) -> Seq<u8> {
    u64_le(b.number) + u64_le(b.hash)
}

pub open spec fn enc_block_list(bs: Seq<Block>) -> Seq<u8>
    decreases bs.len(),
{
    if bs.len() == 0 {
        Seq::empty()
    } else {
        enc_block(bs[0]) + enc_block_list(bs.drop_first())
    }
}

pub open spec fn dec_block_list(s: Seq<u8>, n: nat) -> Option<(Seq<Block>, int)>
    decreases n,
{
    if n == 0 {
        Some((Seq::empty(), 0))
    } else if s.len() >= 16 {
        let b = Block { number: le_u64(s.subrange(0, 8)), hash: le_u64(s.subrange(8, 16)) };
        match dec_block_list(s.subrange(16, s.len() as int), (n - 1) as nat) {
            Some((rest, c)) => Some((seq![b] + rest, 16 + c)),
            None => None,
        }
    } else {
        None
    }
}

pub open spec fn enc_status(st: Status) -> Seq<u8> {
    u64_le(st.version) + u64_le(st.best_number) + u64_le(st.best_hash) + u64_le(st.genesis_hash)
}

/// The tagged layer of the wire format: one tag byte, then the variant's
/// payload.
pub open spec fn enc_tagged(v: MessageView) -> Seq<u8> {
    match v {
        MessageView::Status(st) => seq![0u8] + enc_status(st),
        MessageView::Transaction(p) => seq![1u8] + u64_le(p.len() as u64) + p,
        MessageView::BlockRequest(r) => seq![2u8] + u64_le(r.id) + enc_block_id(r.from)
            + enc_opt_block_id(r.to) + enc_opt_u64(r.max),
        MessageView::BlockResponse { id, blocks } => seq![3u8] + u64_le(id)
            + u64_le(blocks.len() as u64) + enc_block_list(blocks),
    }
}

/// Version of the wire envelope; a message under any other version is a
/// decode failure.
pub const WIRE_VERSION: u8 = 1;

/// The full wire format: a versioned envelope around one tagged variant.
pub open spec fn enc_message(v: MessageView) -> Seq<u8> {
    seq![WIRE_VERSION] + enc_tagged(v)
}

/// Total decoder model: either a valid message view or a decode failure.
pub open spec fn dec_message(s: Seq<u8>) -> Option<MessageView> {
    if s.len() >= 1 && s[0] == WIRE_VERSION {
        dec_tagged(s.subrange(1, s.len() as int))
    } else {
        None
    }
}

pub open spec fn dec_status_body(s: Seq<u8>) -> Option<MessageView> {
    if s.len() == 32 {
        Some(MessageView::Status(Status {
            version: le_u64(s.subrange(0, 8)),
            best_number: le_u64(s.subrange(8, 16)),
            best_hash: le_u64(s.subrange(16, 24)),
            genesis_hash: le_u64(s.subrange(24, 32)),
        }))
    } else {
        None
    }
}

pub open spec fn dec_transaction_body(s: Seq<u8>) -> Option<MessageView> {
    if s.len() >= 8 {
        let n = le_u64(s.subrange(0, 8));
        if s.len() == 8 + n {
            Some(MessageView::Transaction(s.subrange(8, s.len() as int)))
        } else {
            None
        }
    } else {
        None
    }
}

pub open spec fn dec_block_request_body(s: Seq<u8>) -> Option<MessageView> {
    if s.len() >= 8 {
        let id = le_u64(s.subrange(0, 8));
        match dec_block_id(s.subrange(8, s.len() as int)) {
            Some((from, c1)) => match dec_opt_block_id(s.subrange(8 + c1, s.len() as int)) {
                Some((to, c2)) => match dec_opt_u64(s.subrange(8 + c1 + c2, s.len() as int)) {
                    Some((max, c3)) => if s.len() == 8 + c1 + c2 + c3 {
                        Some(MessageView::BlockRequest(BlockRequest { id, from, to, max }))
                    } else {
                        None
                    },
                    None => None,
                },
                None => None,
            },
            None => None,
        }
    } else {
        None
    }
}

pub open spec fn dec_block_response_body(s: Seq<u8>) -> Option<MessageView> {
    if s.len() >= 16 {
        let id = le_u64(s.subrange(0, 8));
        let n = le_u64(s.subrange(8, 16));
        match dec_block_list(s.subrange(16, s.len() as int), n as nat) {
            Some((blocks, c)) => if s.len() == 16 + c {
                Some(MessageView::BlockResponse { id, blocks })
            } else {
                None
            },
            None => None,
        }
    } else {
        None
    }
}

pub open spec fn dec_tagged(s: Seq<u8>) -> Option<MessageView> {
    if s.len() < 1 {
        None
    } else {
        let rest = s.subrange(1, s.len() as int);
        if s[0] == 0u8 {
            dec_status_body(rest)
        } else if s[0] == 1u8 {
            dec_transaction_body(rest)
        } else if s[0] == 2u8 {
            dec_block_request_body(rest)
        } else if s[0] == 3u8 {
            dec_block_response_body(rest)
        } else {
            None
        }
    }
}

pub proof fn lemma_dec_block_id_prefix(b: BlockId, rest: Seq<u8>)
    ensures
        enc_block_id(b).len() == 9,
        dec_block_id(enc_block_id(b) + rest) == Some((b, 9int)),
{
    let s = enc_block_id(b) + rest;
    match b {
        BlockId::Number(x) => {
            assert(s[0] == 0u8);
            assert(s.subrange(1, 9) =~= u64_le(x));
            lemma_u64_le_inverse(x);
        }
        BlockId::Hash(x) => {
            assert(s[0] == 1u8);
            assert(s.subrange(1, 9) =~= u64_le(x));
            lemma_u64_le_inverse(x);
        }
    }
}

pub proof fn lemma_dec_opt_u64_prefix(o: Option<u64>, rest: Seq<u8>)
    ensures
        enc_opt_u64(o).len() == (if o is Some { 9int } else { 1int }),
        dec_opt_u64(enc_opt_u64(o) + rest) == Some((o, if o is Some { 9int } else { 1int })),
{
    let s = enc_opt_u64(o) + rest;
    match o {
        Option::None => {
            assert(s[0] == 0u8);
        }
        Option::Some(x) => {
            assert(s[0] == 1u8);
            assert(s.subrange(1, 9) =~= u64_le(x));
            lemma_u64_le_inverse(x);
        }
    }
}

pub proof fn lemma_dec_opt_block_id_prefix(o: Option<BlockId>, rest: Seq<u8>)
    ensures
        enc_opt_block_id(o).len() == (if o is Some { 10int } else { 1int }),
        dec_opt_block_id(enc_opt_block_id(o) + rest) == Some((
            o,
            if o is Some { 10int } else { 1int },
        )),
{
    let s = enc_opt_block_id(o) + rest;
    match o {
        Option::None => {
            assert(s[0] == 0u8);
        }
        Option::Some(b) => {
            assert(s[0] == 1u8);
            lemma_dec_block_id_prefix(b, rest);
            assert(s.subrange(1, s.len() as int) =~= enc_block_id(b) + rest);
        }
    }
}

pub proof fn lemma_enc_block_list_len(bs: Seq<Block>)
    ensures
        enc_block_list(bs).len() == 16 * bs.len(),
    decreases bs.len(),
{
    if bs.len() == 0 {
    } else {
        lemma_enc_block_list_len(bs.drop_first());
    }
}

pub proof fn lemma_dec_block_list_prefix(bs: Seq<Block>, rest: Seq<u8>)
    ensures
        dec_block_list(enc_block_list(bs) + rest, bs.len()) == Some((bs, 16 * bs.len() as int)),
    decreases bs.len(),
{
    let s = enc_block_list(bs) + rest;
    if bs.len() == 0 {
        assert(bs =~= Seq::<Block>::empty());
    } else {
        let b0 = bs[0];
        let tail = bs.drop_first();
        lemma_enc_block_list_len(bs);
        assert(s.subrange(0, 8) =~= u64_le(b0.number));
        assert(s.subrange(8, 16) =~= u64_le(b0.hash));
        lemma_u64_le_inverse(b0.number);
        lemma_u64_le_inverse(b0.hash);
        assert(s.subrange(16, s.len() as int) =~= enc_block_list(tail) + rest);
        lemma_dec_block_list_prefix(tail, rest);
        assert(seq![b0] + tail =~= bs);
    }
}

fn push_u64(out: &mut Vec<u8>, x: u64)
    ensures
        final(out)@ == old(out)@ + u64_le(x),
{
    proof {
            assert(x & 0xff < 256 && (x >> 8) & 0xff < 256 && (x >> 16) & 0xff < 256
            && (x >> 24) & 0xff < 256 && (x >> 32) & 0xff < 256 && (x >> 40) & 0xff < 256
            && (x >> 48) & 0xff < 256 && (x >> 56) & 0xff < 256) by (bit_vector);
    }
    out.push((x & 0xff) as u8);
    out.push(((x >> 8) & 0xff) as u8);
    out.push(((x >> 16) & 0xff) as u8);
    out.push(((x >> 24) & 0xff) as u8);
    out.push(((x >> 32) & 0xff) as u8);
    out.push(((x >> 40) & 0xff) as u8);
    out.push(((x >> 48) & 0xff) as u8);
    out.push(((x >> 56) & 0xff) as u8);
    proof {
            assert(out@ =~= old(out)@ + u64_le(x));
    }
}

fn push_block_id(out: &mut Vec<u8>, b: BlockId)
    ensures
        final(out)@ == old(out)@ + enc_block_id(b),
{
    match b {
        BlockId::Number(x) => {
            out.push(0u8);
            push_u64(out, x);
        }
        BlockId::Hash(x) => {
            out.push(1u8);
            push_u64(out, x);
        }
    }
    proof {
        assert(out@ =~= old(out)@ + enc_block_id(b));
    }
}

fn push_opt_u64(out: &mut Vec<u8>, o: &Option<u64>)
    ensures
        final(out)@ == old(out)@ + enc_opt_u64(*o),
{
    match o {
        Option::None => {
            out.push(0u8);
        }
        Option::Some(x) => {
            out.push(1u8);
            push_u64(out, *x);
        }
    }
    proof {
        assert(out@ =~= old(out)@ + enc_opt_u64(*o));
    }
}

fn push_opt_block_id(out: &mut Vec<u8>, o: &Option<BlockId>)
    ensures
        final(out)@ == old(out)@ + enc_opt_block_id(*o),
{
    match o {
        Option::None => {
            out.push(0u8);
        }
        Option::Some(b) => {
            out.push(1u8);
            push_block_id(out, *b);
        }
    }
    proof {
        assert(out@ =~= old(out)@ + enc_opt_block_id(*o));
    }
}

proof fn lemma_enc_block_list_snoc(bs: Seq<Block>, j: int)
    requires
        0 <= j < bs.len(),
    ensures
        enc_block_list(bs.subrange(0, j + 1)) == enc_block_list(bs.subrange(0, j))
            + enc_block(bs[j]),
    decreases j,
{
    if j == 0 {
        assert(bs.subrange(0, 1).drop_first() =~= Seq::<Block>::empty());
        assert(bs.subrange(0, 1)[0] == bs[0]);
        assert(bs.subrange(0, 1).len() == 1);
        assert(enc_block_list(Seq::<Block>::empty()) == Seq::<u8>::empty());
        assert(enc_block_list(bs.subrange(0, 1)) =~= enc_block(bs[0]) + Seq::<u8>::empty());
        assert(bs.subrange(0, 0) =~= Seq::<Block>::empty());
        assert(enc_block_list(bs.subrange(0, 0)) + enc_block(bs[0]) =~= enc_block(bs[0])
            + Seq::<u8>::empty());
    } else {
        let t = bs.drop_first();
        lemma_enc_block_list_snoc(t, j - 1);
        assert(bs.subrange(0, j + 1).drop_first() =~= t.subrange(0, j));
        assert(bs.subrange(0, j).drop_first() =~= t.subrange(0, j - 1));
        assert(bs.subrange(0, j + 1)[0] == bs[0]);
        assert(bs.subrange(0, j)[0] == bs[0]);
        assert(t[j - 1] == bs[j]);
        assert(enc_block(bs[0]) + (enc_block_list(t.subrange(0, j - 1)) + enc_block(bs[j]))
            =~= (enc_block(bs[0]) + enc_block_list(t.subrange(0, j - 1))) + enc_block(bs[j]));
    }
}

fn encode_status(st: &Status) -> (r: Vec<u8>)
    ensures
        r@ == enc_tagged(MessageView::Status(*st)),
{
    let mut out: Vec<u8> = Vec::new();
    out.push(0u8);
    push_u64(&mut out, st.version);
    push_u64(&mut out, st.best_number);
    push_u64(&mut out, st.best_hash);
    push_u64(&mut out, st.genesis_hash);
    proof {
        assert(out@ =~= enc_tagged(MessageView::Status(*st)));
    }
    out
}

fn encode_transaction(p: &Vec<u8>) -> (r: Vec<u8>)
    ensures
        r@ == enc_tagged(MessageView::Transaction(p@)),
{
    let mut out: Vec<u8> = Vec::new();
    out.push(1u8);
    push_u64(&mut out, p.len() as u64);
    let ghost base = out@;
    let mut j: usize = 0;
    while j < p.len()
        invariant
            j <= p.len(),
            out@ == base + p@.subrange(0, j as int),
        decreases p.len() - j,
    {
        out.push(p[j]);
        proof {
            assert(base + p@.subrange(0, j as int) + seq![p@[j as int]] =~= base
                + p@.subrange(0, j as int + 1));
        }
        j = j + 1;
    }
    proof {
        assert(p@.subrange(0, p@.len() as int) =~= p@);
        assert(out@ =~= enc_tagged(MessageView::Transaction(p@)));
    }
    out
}

fn encode_block_request(r: &BlockRequest) -> (out: Vec<u8>)
    ensures
        out@ == enc_tagged(MessageView::BlockRequest(*r)),
{
    let mut out: Vec<u8> = Vec::new();
    out.push(2u8);
    push_u64(&mut out, r.id);
    push_block_id(&mut out, r.from);
    push_opt_block_id(&mut out, &r.to);
    push_opt_u64(&mut out, &r.max);
    proof {
        assert(out@ =~= enc_tagged(MessageView::BlockRequest(*r)));
    }
    out
}

fn encode_block_response(r: &BlockResponse) -> (out: Vec<u8>)
    ensures
        out@ == enc_tagged(MessageView::BlockResponse { id: r.id, blocks: r.blocks@ }),
{
    let mut out: Vec<u8> = Vec::new();
    out.push(3u8);
    push_u64(&mut out, r.id);
    push_u64(&mut out, r.blocks.len() as u64);
    let ghost base = out@;
    let mut j: usize = 0;
    while j < r.blocks.len()
        invariant
            j <= r.blocks.len(),
            out@ == base + enc_block_list(r.blocks@.subrange(0, j as int)),
        decreases r.blocks.len() - j,
    {
        let b = r.blocks[j];
        push_u64(&mut out, b.number);
        push_u64(&mut out, b.hash);
        proof {
            lemma_enc_block_list_snoc(r.blocks@, j as int);
            assert(base + enc_block_list(r.blocks@.subrange(0, j as int)) + u64_le(b.number)
                + u64_le(b.hash) =~= base + enc_block_list(r.blocks@.subrange(0, j as int + 1)));
        }
        j = j + 1;
    }
    proof {
        assert(r.blocks@.subrange(0, r.blocks@.len() as int) =~= r.blocks@);
        assert(out@ =~= enc_tagged(MessageView::BlockResponse { id: r.id, blocks: r.blocks@ }));
    }
    out
}

/// Serializes a message for the wire, under the envelope version.
pub fn encode(m: &Message) -> (r: Vec<u8>)
    ensures
        r@ == enc_message(m@),
{
    let mut out = match &m.body {
        MessageBody::Status(st) => encode_status(st),
        MessageBody::Transaction(p) => encode_transaction(p),
        MessageBody::BlockRequest(r) => encode_block_request(r),
        MessageBody::BlockResponse(r) => encode_block_response(r),
    };
    out.insert(0, WIRE_VERSION);
    proof {
        assert(out@ =~= seq![WIRE_VERSION] + enc_tagged(m@));
    }
    out
}

fn read_u64(data: &[u8], i: usize) -> (r: u64)
    requires
        i + 8 <= data@.len(),
    ensures
        r == le_u64(data@.subrange(i as int, i as int + 8)),
{
    let b0 = data[i];
    let b1 = data[i + 1];
    let b2 = data[i + 2];
    let b3 = data[i + 3];
    let b4 = data[i + 4];
    let b5 = data[i + 5];
    let b6 = data[i + 6];
    let b7 = data[i + 7];
    proof {
        let s = data@.subrange(i as int, i as int + 8);
        assert(s[0] == data@[i as int]);
        assert(s[1] == data@[i as int + 1]);
        assert(s[2] == data@[i as int + 2]);
        assert(s[3] == data@[i as int + 3]);
        assert(s[4] == data@[i as int + 4]);
        assert(s[5] == data@[i as int + 5]);
        assert(s[6] == data@[i as int + 6]);
        assert(s[7] == data@[i as int + 7]);
    }
    (b0 as u64) | (b1 as u64) << 8 | (b2 as u64) << 16 | (b3 as u64) << 24 | (b4 as u64) << 32
        | (b5 as u64) << 40 | (b6 as u64) << 48 | (b7 as u64) << 56
}

fn read_block_id(data: &[u8], i: usize) -> (r: Option<(BlockId, usize)>)
    requires
        i <= data@.len(),
    ensures
        match r {
            Some((b, j)) => i < j <= data@.len() && dec_block_id(
                data@.subrange(i as int, data@.len() as int),
            ) == Some((b, j - i as int)),
            None => dec_block_id(data@.subrange(i as int, data@.len() as int)) is None,
        },
{
    let ghost s = data@.subrange(i as int, data@.len() as int);
    if data.len() - i >= 9 {
        let tag = data[i];
        proof {
            assert(s[0] == data@[i as int]);
            assert(s.subrange(1, 9) =~= data@.subrange(i as int + 1, i as int + 9));
        }
        if tag == 0 {
            Some((BlockId::Number(read_u64(data, i + 1)), i + 9))
        } else if tag == 1 {
            Some((BlockId::Hash(read_u64(data, i + 1)), i + 9))
        } else {
            None
        }
    } else {
        None
    }
}

fn read_opt_u64(data: &[u8], i: usize) -> (r: Option<(Option<u64>, usize)>)
    requires
        i <= data@.len(),
    ensures
        match r {
            Some((o, j)) => i < j <= data@.len() && dec_opt_u64(
                data@.subrange(i as int, data@.len() as int),
            ) == Some((o, j - i as int)),
            None => dec_opt_u64(data@.subrange(i as int, data@.len() as int)) is None,
        },
{
    let ghost s = data@.subrange(i as int, data@.len() as int);
    if data.len() - i >= 1 {
        let tag = data[i];
        proof {
            assert(s[0] == data@[i as int]);
        }
        if tag == 0 {
            Some((None, i + 1))
        } else if tag == 1 {
            if data.len() - i >= 9 {
                proof {
                    assert(s.subrange(1, 9) =~= data@.subrange(i as int + 1, i as int + 9));
                }
                Some((Some(read_u64(data, i + 1)), i + 9))
            } else {
                None
            }
        } else {
            None
        }
    } else {
        None
    }
}

fn read_opt_block_id(data: &[u8], i: usize) -> (r: Option<(Option<BlockId>, usize)>)
    requires
        i <= data@.len(),
    ensures
        match r {
            Some((o, j)) => i < j <= data@.len() && dec_opt_block_id(
                data@.subrange(i as int, data@.len() as int),
            ) == Some((o, j - i as int)),
            None => dec_opt_block_id(data@.subrange(i as int, data@.len() as int)) is None,
        },
{
    let ghost s = data@.subrange(i as int, data@.len() as int);
    if data.len() - i >= 1 {
        let tag = data[i];
        proof {
            assert(s[0] == data@[i as int]);
        }
        if tag == 0 {
            Some((None, i + 1))
        } else if tag == 1 {
            proof {
                assert(s.subrange(1, s.len() as int) =~= data@.subrange(
                    i as int + 1,
                    data@.len() as int,
                ));
            }
            match read_block_id(data, i + 1) {
                Some((b, j)) => Some((Some(b), j)),
                None => None,
            }
        } else {
            None
        }
    } else {
        None
    }
}

fn decode_blocks(data: &[u8], i: usize, n: u64) -> (r: Option<(Vec<Block>, usize)>)
    requires
        i <= data@.len(),
    ensures
        match r {
            Some((v, j)) => i <= j <= data@.len() && dec_block_list(
                data@.subrange(i as int, data@.len() as int),
                n as nat,
            ) == Some((v@, j - i as int)),
            None => dec_block_list(data@.subrange(i as int, data@.len() as int), n as nat) is None,
        },
    decreases n,
{
    let ghost s = data@.subrange(i as int, data@.len() as int);
    if n == 0 {
        let v: Vec<Block> = Vec::new();
        proof {
            assert(v@ =~= Seq::<Block>::empty());
        }
        Some((v, i))
    } else if data.len() - i >= 16 {
        proof {
            assert(s.subrange(0, 8) =~= data@.subrange(i as int, i as int + 8));
            assert(s.subrange(8, 16) =~= data@.subrange(i as int + 8, i as int + 16));
            assert(s.subrange(16, s.len() as int) =~= data@.subrange(
                i as int + 16,
                data@.len() as int,
            ));
        }
        let number = read_u64(data, i);
        let hash = read_u64(data, i + 8);
        match decode_blocks(data, i + 16, n - 1) {
            Some((v, j)) => {
                let mut v = v;
                v.insert(0, Block { number, hash });
                proof {
                    let b = Block { number, hash };
                    assert(v@ =~= seq![b] + v@.subrange(1, v@.len() as int));
                }
                Some((v, j))
            }
            None => None,
        }
    } else {
        None
    }
}

fn decode_status_body(data: &[u8]) -> (r: Option<Message>)
    requires
        data@.len() >= 1,
    ensures
        match r {
            Some(m) => dec_status_body(data@.subrange(1, data@.len() as int)) == Some(m@),
            None => dec_status_body(data@.subrange(1, data@.len() as int)) is None,
        },
{
    let ghost s = data@;
    let ghost rest = s.subrange(1, s.len() as int);
    if data.len() == 33 {
        proof {
            assert(rest.subrange(0, 8) =~= s.subrange(1, 9));
            assert(rest.subrange(8, 16) =~= s.subrange(9, 17));
            assert(rest.subrange(16, 24) =~= s.subrange(17, 25));
            assert(rest.subrange(24, 32) =~= s.subrange(25, 33));
        }
        let version = read_u64(data, 1);
        let best_number = read_u64(data, 9);
        let best_hash = read_u64(data, 17);
        let genesis_hash = read_u64(data, 25);
        Some(Message {
            body: MessageBody::Status(Status { version, best_number, best_hash, genesis_hash }),
        })
    } else {
        None
    }
}

fn decode_transaction_body(data: &[u8]) -> (r: Option<Message>)
    requires
        data@.len() >= 1,
    ensures
        match r {
            Some(m) => dec_transaction_body(data@.subrange(1, data@.len() as int)) == Some(m@),
            None => dec_transaction_body(data@.subrange(1, data@.len() as int)) is None,
        },
{
    let ghost s = data@;
    let ghost rest = s.subrange(1, s.len() as int);
    if data.len() >= 9 {
        proof {
            assert(rest.subrange(0, 8) =~= s.subrange(1, 9));
        }
        let n = read_u64(data, 1);
        if (data.len() - 9) as u64 == n {
            let mut p: Vec<u8> = Vec::new();
            let mut j: usize = 9;
            while j < data.len()
                invariant
                    9 <= j <= data@.len(),
                    p@ == data@.subrange(9, j as int),
                decreases data@.len() - j,
            {
                p.push(data[j]);
                proof {
                    assert(data@.subrange(9, j as int + 1) =~= data@.subrange(9, j as int)
                        + seq![data@[j as int]]);
                }
                j = j + 1;
            }
            proof {
                assert(rest.subrange(8, rest.len() as int) =~= s.subrange(9, s.len() as int));
                assert(p@ == rest.subrange(8, rest.len() as int));
            }
            Some(Message { body: MessageBody::Transaction(p) })
        } else {
            None
        }
    } else {
        None
    }
}

#[verifier::rlimit(100)]
fn decode_block_request_body(data: &[u8]) -> (r: Option<Message>)
    requires
        data@.len() >= 1,
    ensures
        match r {
            Some(m) => dec_block_request_body(data@.subrange(1, data@.len() as int)) == Some(m@),
            None => dec_block_request_body(data@.subrange(1, data@.len() as int)) is None,
        },
{
    let ghost s = data@;
    let ghost rest = s.subrange(1, s.len() as int);
    if data.len() >= 9 {
        proof {
            assert(rest.subrange(0, 8) =~= s.subrange(1, 9));
            assert(rest.subrange(8, rest.len() as int) =~= s.subrange(9, s.len() as int));
        }
        let id = read_u64(data, 1);
        match read_block_id(data, 9) {
            Some((from, j1)) => {
                proof {
                    assert(rest.subrange(8 + (j1 - 9) as int, rest.len() as int) =~= s.subrange(
                        j1 as int,
                        s.len() as int,
                    ));
                }
                match read_opt_block_id(data, j1) {
                    Some((to, j2)) => {
                        proof {
                            assert(rest.subrange(
                                8 + (j1 - 9) as int + (j2 - j1) as int,
                                rest.len() as int,
                            ) =~= s.subrange(j2 as int, s.len() as int));
                        }
                        match read_opt_u64(data, j2) {
                            Some((max, j3)) => {
                                if j3 == data.len() {
                                    Some(Message {
                                        body: MessageBody::BlockRequest(BlockRequest {
                                            id,
                                            from,
                                            to,
                                            max,
                                        }),
                                    })
                                } else {
                                    None
                                }
                            }
                            None => None,
                        }
                    }
                    None => None,
                }
            }
            None => None,
        }
    } else {
        None
    }
}

fn decode_block_response_body(data: &[u8]) -> (r: Option<Message>)
    requires
        data@.len() >= 1,
    ensures
        match r {
            Some(m) => dec_block_response_body(data@.subrange(1, data@.len() as int)) == Some(m@),
            None => dec_block_response_body(data@.subrange(1, data@.len() as int)) is None,
        },
{
    let ghost s = data@;
    let ghost rest = s.subrange(1, s.len() as int);
    if data.len() >= 17 {
        proof {
            assert(rest.subrange(0, 8) =~= s.subrange(1, 9));
            assert(rest.subrange(8, 16) =~= s.subrange(9, 17));
            assert(rest.subrange(16, rest.len() as int) =~= s.subrange(17, s.len() as int));
        }
        let id = read_u64(data, 1);
        let n = read_u64(data, 9);
        match decode_blocks(data, 17, n) {
            Some((blocks, j)) => {
                if j == data.len() {
                    Some(Message { body: MessageBody::BlockResponse(BlockResponse { id, blocks }) })
                } else {
                    None
                }
            }
            None => None,
        }
    } else {
        None
    }
}

/// Total decoder for untrusted bytes: a valid message or a decode failure,
/// never a panic.
pub fn decode(data: &[u8]) -> (r: Option<Message>)
    ensures
        match r {
            Some(m) => dec_message(data@) == Some(m@),
            None => dec_message(data@) is None,
        },
{
    if data.len() < 1 {
        return None;
    }
    if data[0] != WIRE_VERSION {
        return None;
    }
    let rest = &data[1..data.len()];
    proof {
        assert(rest@ =~= data@.subrange(1, data@.len() as int));
    }
    if rest.len() < 1 {
        return None;
    }
    let tag = rest[0];
    if tag == 0 {
        decode_status_body(rest)
    } else if tag == 1 {
        decode_transaction_body(rest)
    } else if tag == 2 {
        decode_block_request_body(rest)
    } else if tag == 3 {
        decode_block_response_body(rest)
    } else {
        None
    }
}

proof fn lemma_round_trip_status(st: Status)
    ensures
        dec_tagged(enc_tagged(MessageView::Status(st))) == Some(MessageView::Status(st)),
{
    let s = enc_tagged(MessageView::Status(st));
    assert(s[0] == 0u8);
    let body = s.subrange(1, s.len() as int);
    assert(body =~= enc_status(st));
    assert(body.len() == 32);
    assert(body.subrange(0, 8) =~= u64_le(st.version));
    assert(body.subrange(8, 16) =~= u64_le(st.best_number));
    assert(body.subrange(16, 24) =~= u64_le(st.best_hash));
    assert(body.subrange(24, 32) =~= u64_le(st.genesis_hash));
    lemma_u64_le_inverse(st.version);
    lemma_u64_le_inverse(st.best_number);
    lemma_u64_le_inverse(st.best_hash);
    lemma_u64_le_inverse(st.genesis_hash);
}

proof fn lemma_round_trip_transaction(p: Seq<u8>)
    requires
        p.len() <= u64::MAX,
    ensures
        dec_tagged(enc_tagged(MessageView::Transaction(p))) == Some(
            MessageView::Transaction(p),
        ),
{
    let s = enc_tagged(MessageView::Transaction(p));
    assert(s[0] == 1u8);
    let body = s.subrange(1, s.len() as int);
    assert(body =~= u64_le(p.len() as u64) + p);
    assert(body.subrange(0, 8) =~= u64_le(p.len() as u64));
    lemma_u64_le_inverse(p.len() as u64);
    assert(body.len() == 8 + p.len());
    assert(body.subrange(8, body.len() as int) =~= p);
}

#[verifier::rlimit(100)]
proof fn lemma_round_trip_block_request(r: BlockRequest)
    ensures
        dec_tagged(enc_tagged(MessageView::BlockRequest(r))) == Some(
            MessageView::BlockRequest(r),
        ),
{
    let s = enc_tagged(MessageView::BlockRequest(r));
    assert(s[0] == 2u8);
    let body = s.subrange(1, s.len() as int);
    assert(body =~= u64_le(r.id) + (enc_block_id(r.from) + enc_opt_block_id(r.to) + enc_opt_u64(
        r.max,
    )));
    assert(body.subrange(0, 8) =~= u64_le(r.id));
    lemma_u64_le_inverse(r.id);
    let s1 = body.subrange(8, body.len() as int);
    assert(s1 =~= enc_block_id(r.from) + (enc_opt_block_id(r.to) + enc_opt_u64(r.max)));
    lemma_dec_block_id_prefix(r.from, enc_opt_block_id(r.to) + enc_opt_u64(r.max));
    assert(dec_block_id(s1) == Some((r.from, 9int)));
    let s2 = body.subrange(17int, body.len() as int);
    assert(s2 =~= enc_opt_block_id(r.to) + enc_opt_u64(r.max));
    lemma_dec_opt_block_id_prefix(r.to, enc_opt_u64(r.max));
    let c2: int = if r.to is Some { 10 } else { 1 };
    assert(dec_opt_block_id(s2) == Some((r.to, c2)));
    let s3 = body.subrange(8 + 9 + c2, body.len() as int);
    assert(s3 =~= enc_opt_u64(r.max) + Seq::<u8>::empty());
    assert(enc_opt_u64(r.max) + Seq::<u8>::empty() =~= enc_opt_u64(r.max));
    lemma_dec_opt_u64_prefix(r.max, Seq::<u8>::empty());
    let c3: int = if r.max is Some { 9 } else { 1 };
    assert(dec_opt_u64(s3) == Some((r.max, c3)));
    assert(body.len() == 8 + 9 + c2 + c3);
}

proof fn lemma_round_trip_block_response(id: u64, blocks: Seq<Block>)
    requires
        blocks.len() <= u64::MAX,
    ensures
        dec_tagged(enc_tagged(MessageView::BlockResponse { id, blocks })) == Some(
            MessageView::BlockResponse { id, blocks },
        ),
{
    let s = enc_tagged(MessageView::BlockResponse { id, blocks });
    assert(s[0] == 3u8);
    let body = s.subrange(1, s.len() as int);
    assert(body =~= u64_le(id) + u64_le(blocks.len() as u64) + enc_block_list(blocks));
    lemma_enc_block_list_len(blocks);
    assert(body.subrange(0, 8) =~= u64_le(id));
    lemma_u64_le_inverse(id);
    assert(body.subrange(8, 16) =~= u64_le(blocks.len() as u64));
    lemma_u64_le_inverse(blocks.len() as u64);
    assert(body.subrange(16, body.len() as int) =~= enc_block_list(blocks) + Seq::<u8>::empty());
    lemma_dec_block_list_prefix(blocks, Seq::<u8>::empty());
    assert(body.len() == 16 + 16 * blocks.len());
}

/// Law: encoding any message and decoding the result yields the same message.
pub proof fn lemma_round_trip(v: MessageView)
    requires
        wf_view(v),
    ensures
        dec_message(enc_message(v)) == Some(v),
{
    let s = enc_message(v);
    assert(s[0] == WIRE_VERSION);
    assert(s.subrange(1, s.len() as int) =~= enc_tagged(v));
    match v {
        MessageView::Status(st) => lemma_round_trip_status(st),
        MessageView::Transaction(p) => lemma_round_trip_transaction(p),
        MessageView::BlockRequest(r) => lemma_round_trip_block_request(r),
        MessageView::BlockResponse { id, blocks } => lemma_round_trip_block_response(id, blocks),
    }
}

} // verus!
