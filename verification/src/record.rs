//! Records as the JSON of a log holds them.
//!
//! A record is read leniently: a member of an unexpected type reads as absent or
//! empty, and members that no row needs are not looked at. Only a member that is
//! needed and has no readable content makes the record unreadable.

use crate::json;
use crate::json::Json;
use crate::json::JsonV;
use crate::json::Num;
use crate::text;
use vstd::prelude::*;

verus! {

/// A member that may be absent, for which `null` is a value like any other.
#[derive(Debug, Default)]
pub enum Present {
    #[default]
    Absent,
    Val(Json),
}

/// A string member. A value of another type counts as present, `null` does not.
#[derive(Debug, Default)]
pub enum MaybeStr {
    #[default]
    Absent,
    Str(String),
    NotStr,
}

/// An integer member, where it is one that fits.
#[derive(Debug, Clone, Copy, Default)]
pub struct IntOrNull(pub Option<i64>);

/// A timestamp member. A float is given by its bits.
#[derive(Debug, Default)]
pub enum TsVal {
    #[default]
    Absent,
    Int(i128),
    Float(u64),
    Str(String),
    Other,
}

/// The `content` member of a message or a block.
#[derive(Debug, Default)]
pub enum ContentField {
    #[default]
    Absent,
    Str(String),
    List(Vec<Node>),
    Other,
}

/// An item of a list of content.
#[derive(Debug)]
pub enum Node {
    Str(String),
    Block(Box<Block>),
    Other,
}

/// A block of content.
#[derive(Debug, Default)]
pub struct Block {
    pub text: MaybeStr,
    pub content: ContentField,
    pub btype: MaybeStr,
    pub name: MaybeStr,
    pub input: InputMap,
    pub is_error: Present,
}

/// The `input` of a tool call: its members, one per key.
#[derive(Debug, Default)]
pub struct InputMap(pub Option<Vec<(String, Json)>>);

/// The token counts of a message.
#[derive(Debug, Clone, Copy, Default)]
pub struct Usage {
    pub input_tokens: IntOrNull,
    pub output_tokens: IntOrNull,
    pub cache_read_input_tokens: IntOrNull,
}

/// The message of a record.
#[derive(Debug, Default)]
pub struct Msg {
    pub role: MaybeStr,
    pub model: MaybeStr,
    pub content: ContentField,
    pub usage: Usage,
}

/// A record.
#[derive(Debug, Default)]
pub struct Rec {
    pub timestamp: TsVal,
    pub rtype: MaybeStr,
    pub message: Msg,
}

/// What a `MaybeStr` stands for.
pub enum MaybeStrV {
    Absent,
    Str(Seq<char>),
    NotStr,
}

/// What a `TsVal` stands for.
pub enum TsValV {
    Absent,
    Int(int),
    Float(u64),
    Str(Seq<char>),
    Other,
}

/// What a `ContentField` stands for.
pub enum ContentV {
    Absent,
    Str(Seq<char>),
    List(Seq<NodeV>),
    Other,
}

/// What a `Node` stands for.
pub enum NodeV {
    Str(Seq<char>),
    Block(BlockV),
    Other,
}

/// What a `Block` stands for.
pub struct BlockV {
    pub text: MaybeStrV,
    pub content: ContentV,
    pub btype: MaybeStrV,
    pub name: MaybeStrV,
    pub input: Option<Seq<(Seq<char>, JsonV)>>,
    pub is_error: Option<JsonV>,
}

/// What a `Usage` stands for.
pub struct UsageV {
    pub input_tokens: Option<int>,
    pub output_tokens: Option<int>,
    pub cache_read_input_tokens: Option<int>,
}

/// What a `Msg` stands for.
pub struct MsgV {
    pub role: MaybeStrV,
    pub model: MaybeStrV,
    pub content: ContentV,
    pub usage: UsageV,
}

/// What a `Rec` stands for.
pub struct RecV {
    pub timestamp: TsValV,
    pub rtype: MaybeStrV,
    pub message: MsgV,
}

impl View for Present {
    type V = Option<JsonV>;

    open spec fn view(&self) -> Option<JsonV> {
        match self {
            Present::Absent => None,
            Present::Val(v) => Some(v@),
        }
    }
}

impl View for MaybeStr {
    type V = MaybeStrV;

    open spec fn view(&self) -> MaybeStrV {
        match self {
            MaybeStr::Absent => MaybeStrV::Absent,
            MaybeStr::Str(s) => MaybeStrV::Str(s@),
            MaybeStr::NotStr => MaybeStrV::NotStr,
        }
    }
}

impl View for IntOrNull {
    type V = Option<int>;

    open spec fn view(&self) -> Option<int> {
        match self.0 {
            Some(i) => Some(i as int),
            None => None,
        }
    }
}

impl View for TsVal {
    type V = TsValV;

    open spec fn view(&self) -> TsValV {
        match self {
            TsVal::Absent => TsValV::Absent,
            TsVal::Int(i) => TsValV::Int(*i as int),
            TsVal::Float(f) => TsValV::Float(*f),
            TsVal::Str(s) => TsValV::Str(s@),
            TsVal::Other => TsValV::Other,
        }
    }
}

impl View for InputMap {
    type V = Option<Seq<(Seq<char>, JsonV)>>;

    open spec fn view(&self) -> Option<Seq<(Seq<char>, JsonV)>> {
        match self.0 {
            Some(m) => Some(json::members_of(m@)),
            None => None,
        }
    }
}

impl ContentField {
    pub open spec fn model(self) -> ContentV
        decreases self,
    {
        match self {
            ContentField::Absent => ContentV::Absent,
            ContentField::Str(s) => ContentV::Str(s@),
            ContentField::List(ns) => ContentV::List(
                Seq::new(
                    ns@.len(),
                    |i: int|
                        if 0 <= i < ns@.len() {
                            ns@[i].model()
                        } else {
                            NodeV::Other
                        },
                ),
            ),
            ContentField::Other => ContentV::Other,
        }
    }
}

impl Node {
    pub open spec fn model(self) -> NodeV
        decreases self,
    {
        match self {
            Node::Str(s) => NodeV::Str(s@),
            Node::Block(b) => NodeV::Block(b.model()),
            Node::Other => NodeV::Other,
        }
    }
}

impl Block {
    pub open spec fn model(self) -> BlockV
        decreases self,
    {
        BlockV {
            text: self.text@,
            content: self.content.model(),
            btype: self.btype@,
            name: self.name@,
            input: self.input@,
            is_error: self.is_error@,
        }
    }
}

impl View for ContentField {
    type V = ContentV;

    open spec fn view(&self) -> ContentV {
        self.model()
    }
}

impl View for Node {
    type V = NodeV;

    open spec fn view(&self) -> NodeV {
        self.model()
    }
}

impl View for Block {
    type V = BlockV;

    open spec fn view(&self) -> BlockV {
        self.model()
    }
}

impl View for Usage {
    type V = UsageV;

    open spec fn view(&self) -> UsageV {
        UsageV {
            input_tokens: self.input_tokens@,
            output_tokens: self.output_tokens@,
            cache_read_input_tokens: self.cache_read_input_tokens@,
        }
    }
}

impl View for Msg {
    type V = MsgV;

    open spec fn view(&self) -> MsgV {
        MsgV {
            role: self.role@,
            model: self.model@,
            content: self.content@,
            usage: self.usage@,
        }
    }
}

impl View for Rec {
    type V = RecV;

    open spec fn view(&self) -> RecV {
        RecV { timestamp: self.timestamp@, rtype: self.rtype@, message: self.message@ }
    }
}

/// What some nodes stand for.
pub open spec fn nodes(ns: Seq<Node>) -> Seq<NodeV> {
    Seq::new(ns.len(), |i: int| ns[i]@)
}

/// What a content field stands for, by its kind.
pub broadcast proof fn lemma_content_model(c: ContentField)
    ensures
        #[trigger] c.model() == (match c {
            ContentField::Absent => ContentV::Absent,
            ContentField::Str(s) => ContentV::Str(s@),
            ContentField::List(ns) => ContentV::List(nodes(ns@)),
            ContentField::Other => ContentV::Other,
        }),
{
    match c {
        ContentField::List(ns) => {
            assert(c.model()->List_0 =~= nodes(ns@));
        },
        _ => {},
    }
}

impl MaybeStr {
    /// The text, where there is one.
    pub fn as_str(&self) -> (r: Option<&str>)
        ensures
            match r {
                Some(s) => self@ == MaybeStrV::Str(s@),
                None => !(self@ is Str),
            },
    {
        match self {
            MaybeStr::Str(s) => Some(s.as_str()),
            _ => None,
        }
    }
}

// ---------------------------------------------------------------------------
// Reading a record
// ---------------------------------------------------------------------------

/// How a string member is read. Like every reading below it is `None` where the
/// value has no content to read.
pub open spec fn maybe_str(v: JsonV) -> Option<MaybeStrV> {
    match v {
        JsonV::Bad => None,
        JsonV::Null => Some(MaybeStrV::Absent),
        JsonV::Str(s) => Some(MaybeStrV::Str(s)),
        _ => Some(MaybeStrV::NotStr),
    }
}

/// How an integer member is read: `true` is 1, and what is no integer or does
/// not fit is nothing.
pub open spec fn int_or_null(v: JsonV) -> Option<Option<int>> {
    match v {
        JsonV::Bad => None,
        JsonV::Bool(b) => Some(
            Some(
                if b {
                    1
                } else {
                    0
                },
            ),
        ),
        _ => Some(json::int_of(v)),
    }
}

/// How a timestamp member is read.
pub open spec fn ts_val(v: JsonV) -> Option<TsValV> {
    match v {
        JsonV::Bad => None,
        JsonV::Bool(b) => Some(
            TsValV::Int(
                if b {
                    1
                } else {
                    0
                },
            ),
        ),
        JsonV::Num(Num::Int(i)) => Some(TsValV::Int(i as int)),
        JsonV::Num(Num::UInt(u)) => Some(TsValV::Int(u as int)),
        JsonV::Num(Num::Float(f)) => Some(TsValV::Float(f)),
        JsonV::Str(s) => Some(TsValV::Str(s)),
        _ => Some(TsValV::Other),
    }
}

/// How a member of any type is read.
pub open spec fn present(v: JsonV) -> Option<JsonV> {
    if json::strict(v) {
        Some(v)
    } else {
        None
    }
}

/// The index of the first member with a key, or the number of members.
pub open spec fn first_at(ms: Seq<(Seq<char>, JsonV)>, k: Seq<char>) -> int
    decreases ms.len(),
{
    if ms.len() == 0 || ms[0].0 == k {
        0
    } else {
        1 + first_at(ms.drop_first(), k)
    }
}

/// A map with one more member: a known key keeps its place and takes the new
/// value.
pub open spec fn put(ms: Seq<(Seq<char>, JsonV)>, m: (Seq<char>, JsonV)) -> Seq<
    (Seq<char>, JsonV),
> {
    let i = first_at(ms, m.0);
    if 0 <= i < ms.len() {
        ms.update(i, m)
    } else {
        ms.push(m)
    }
}

/// The members of an object with one member per key.
pub open spec fn settled(ms: Seq<(Seq<char>, JsonV)>) -> Seq<(Seq<char>, JsonV)>
    decreases ms.len(),
{
    if ms.len() == 0 {
        Seq::empty()
    } else {
        put(settled(ms.drop_last()), ms.last())
    }
}

/// How the input of a tool call is read: what is no object has no members.
pub open spec fn input_map(v: JsonV) -> Option<Seq<(Seq<char>, JsonV)>> {
    match v {
        JsonV::Bad => None,
        JsonV::Object(ms) => if json::strict(v) {
            Some(settled(ms))
        } else {
            None
        },
        _ => Some(Seq::empty()),
    }
}

/// How content is read.
pub open spec fn content_field(v: JsonV) -> Option<ContentV>
    decreases v, 0nat,
{
    match v {
        JsonV::Bad => None,
        JsonV::Str(s) => Some(ContentV::Str(s)),
        JsonV::Array(a) => if forall|i: int| 0 <= i < a.len() ==> node(#[trigger] a[i]) is Some {
            Some(
                ContentV::List(
                    Seq::new(
                        a.len(),
                        |i: int|
                            if 0 <= i < a.len() {
                                node(a[i])->0
                            } else {
                                NodeV::Other
                            },
                    ),
                ),
            )
        } else {
            None
        },
        _ => Some(ContentV::Other),
    }
}

/// How an item of content is read.
pub open spec fn node(v: JsonV) -> Option<NodeV>
    decreases v, 0nat,
{
    match v {
        JsonV::Bad => None,
        JsonV::Str(s) => Some(NodeV::Str(s)),
        JsonV::Object(ms) => match block(ms) {
            Some(b) => Some(NodeV::Block(b)),
            None => None,
        },
        _ => Some(NodeV::Other),
    }
}

/// A block of which no member has been read.
pub open spec fn no_block() -> BlockV {
    BlockV {
        text: MaybeStrV::Absent,
        content: ContentV::Absent,
        btype: MaybeStrV::Absent,
        name: MaybeStrV::Absent,
        input: None,
        is_error: None,
    }
}

/// A block is read member by member, in order, so that the last of several with
/// one key counts.
pub open spec fn block(ms: Seq<(Seq<char>, JsonV)>) -> Option<BlockV>
    decreases ms, 0nat,
{
    if ms.len() == 0 {
        Some(no_block())
    } else {
        match block(ms.drop_last()) {
            Some(b) => block_member(b, ms.last().0, ms[ms.len() - 1].1),
            None => None,
        }
    }
}

/// One member of a block.
pub open spec fn block_member(b: BlockV, k: Seq<char>, v: JsonV) -> Option<BlockV>
    decreases v, 1nat,
{
    if k == "text"@ {
        match maybe_str(v) {
            Some(x) => Some(BlockV { text: x, ..b }),
            None => None,
        }
    } else if k == "content"@ {
        match content_field(v) {
            Some(x) => Some(BlockV { content: x, ..b }),
            None => None,
        }
    } else if k == "type"@ {
        match maybe_str(v) {
            Some(x) => Some(BlockV { btype: x, ..b }),
            None => None,
        }
    } else if k == "name"@ {
        match maybe_str(v) {
            Some(x) => Some(BlockV { name: x, ..b }),
            None => None,
        }
    } else if k == "input"@ {
        match input_map(v) {
            Some(x) => Some(BlockV { input: Some(x), ..b }),
            None => None,
        }
    } else if k == "is_error"@ {
        match present(v) {
            Some(x) => Some(BlockV { is_error: Some(x), ..b }),
            None => None,
        }
    } else {
        Some(b)
    }
}

/// Token counts of which no member has been read.
pub open spec fn no_usage() -> UsageV {
    UsageV { input_tokens: None, output_tokens: None, cache_read_input_tokens: None }
}

/// One member of the token counts.
pub open spec fn usage_member(u: UsageV, k: Seq<char>, v: JsonV) -> Option<UsageV> {
    if k == "input_tokens"@ {
        match int_or_null(v) {
            Some(x) => Some(UsageV { input_tokens: x, ..u }),
            None => None,
        }
    } else if k == "output_tokens"@ {
        match int_or_null(v) {
            Some(x) => Some(UsageV { output_tokens: x, ..u }),
            None => None,
        }
    } else if k == "cache_read_input_tokens"@ {
        match int_or_null(v) {
            Some(x) => Some(UsageV { cache_read_input_tokens: x, ..u }),
            None => None,
        }
    } else {
        Some(u)
    }
}

/// The members of the token counts, in order.
pub open spec fn usage_members(ms: Seq<(Seq<char>, JsonV)>) -> Option<UsageV>
    decreases ms.len(),
{
    if ms.len() == 0 {
        Some(no_usage())
    } else {
        match usage_members(ms.drop_last()) {
            Some(u) => usage_member(u, ms.last().0, ms.last().1),
            None => None,
        }
    }
}

/// How token counts are read: what is no object has none.
pub open spec fn usage(v: JsonV) -> Option<UsageV> {
    match v {
        JsonV::Bad => None,
        JsonV::Object(ms) => usage_members(ms),
        _ => Some(no_usage()),
    }
}

/// A message of which no member has been read.
pub open spec fn no_msg() -> MsgV {
    MsgV {
        role: MaybeStrV::Absent,
        model: MaybeStrV::Absent,
        content: ContentV::Absent,
        usage: no_usage(),
    }
}

/// One member of a message.
pub open spec fn msg_member(m: MsgV, k: Seq<char>, v: JsonV) -> Option<MsgV> {
    if k == "role"@ {
        match maybe_str(v) {
            Some(x) => Some(MsgV { role: x, ..m }),
            None => None,
        }
    } else if k == "model"@ {
        match maybe_str(v) {
            Some(x) => Some(MsgV { model: x, ..m }),
            None => None,
        }
    } else if k == "content"@ {
        match content_field(v) {
            Some(x) => Some(MsgV { content: x, ..m }),
            None => None,
        }
    } else if k == "usage"@ {
        match usage(v) {
            Some(x) => Some(MsgV { usage: x, ..m }),
            None => None,
        }
    } else {
        Some(m)
    }
}

/// The members of a message, in order.
pub open spec fn msg_members(ms: Seq<(Seq<char>, JsonV)>) -> Option<MsgV>
    decreases ms.len(),
{
    if ms.len() == 0 {
        Some(no_msg())
    } else {
        match msg_members(ms.drop_last()) {
            Some(m) => msg_member(m, ms.last().0, ms.last().1),
            None => None,
        }
    }
}

/// How a message is read: what is no object is an empty message.
pub open spec fn msg(v: JsonV) -> Option<MsgV> {
    match v {
        JsonV::Bad => None,
        JsonV::Object(ms) => msg_members(ms),
        _ => Some(no_msg()),
    }
}

/// A record of which no member has been read.
pub open spec fn no_rec() -> RecV {
    RecV { timestamp: TsValV::Absent, rtype: MaybeStrV::Absent, message: no_msg() }
}

/// One member of a record.
pub open spec fn rec_member(r: RecV, k: Seq<char>, v: JsonV) -> Option<RecV> {
    if k == "timestamp"@ {
        match ts_val(v) {
            Some(x) => Some(RecV { timestamp: x, ..r }),
            None => None,
        }
    } else if k == "type"@ {
        match maybe_str(v) {
            Some(x) => Some(RecV { rtype: x, ..r }),
            None => None,
        }
    } else if k == "message"@ {
        match msg(v) {
            Some(x) => Some(RecV { message: x, ..r }),
            None => None,
        }
    } else {
        Some(r)
    }
}

/// The members of a record, in order.
pub open spec fn rec_members(ms: Seq<(Seq<char>, JsonV)>) -> Option<RecV>
    decreases ms.len(),
{
    if ms.len() == 0 {
        Some(no_rec())
    } else {
        match rec_members(ms.drop_last()) {
            Some(r) => rec_member(r, ms.last().0, ms.last().1),
            None => None,
        }
    }
}

/// How a record is read: only an object is one.
pub open spec fn rec(v: JsonV) -> Option<RecV> {
    match v {
        JsonV::Object(ms) => rec_members(ms),
        _ => None,
    }
}

impl Present {
    /// Reads a member of any type.
    pub fn from_json(v: &Json) -> (r: Option<Present>)
        ensures
            match r {
                Some(x) => present(v@) is Some && x@ == present(v@),
                None => present(v@) is None,
            },
    {
        if v.is_strict() {
            Some(Present::Val(v.copy()))
        } else {
            None
        }
    }
}

impl MaybeStr {
    /// Reads a string member.
    pub fn from_json(v: &Json) -> (r: Option<MaybeStr>)
        ensures
            match r {
                Some(x) => maybe_str(v@) == Some(x@),
                None => maybe_str(v@) is None,
            },
    {
        broadcast use json::lemma_model;

        match v {
            Json::Bad => None,
            Json::Null => Some(MaybeStr::Absent),
            Json::Str(s) => Some(MaybeStr::Str(s.clone())),
            _ => Some(MaybeStr::NotStr),
        }
    }
}

impl IntOrNull {
    /// Reads an integer member.
    pub fn from_json(v: &Json) -> (r: Option<IntOrNull>)
        ensures
            match r {
                Some(x) => int_or_null(v@) == Some(x@),
                None => int_or_null(v@) is None,
            },
    {
        broadcast use json::lemma_model;

        match v {
            Json::Bad => None,
            Json::Bool(b) => Some(
                IntOrNull(
                    Some(
                        if *b {
                            1
                        } else {
                            0
                        },
                    ),
                ),
            ),
            _ => Some(IntOrNull(v.as_i64())),
        }
    }
}

impl TsVal {
    /// Reads a timestamp member.
    pub fn from_json(v: &Json) -> (r: Option<TsVal>)
        ensures
            match r {
                Some(x) => ts_val(v@) == Some(x@),
                None => ts_val(v@) is None,
            },
    {
        broadcast use json::lemma_model;

        match v {
            Json::Bad => None,
            Json::Bool(b) => Some(
                TsVal::Int(
                    if *b {
                        1
                    } else {
                        0
                    },
                ),
            ),
            Json::Num(Num::Int(i)) => Some(TsVal::Int(*i as i128)),
            Json::Num(Num::UInt(u)) => Some(TsVal::Int(*u as i128)),
            Json::Num(Num::Float(f)) => Some(TsVal::Float(*f)),
            Json::Str(s) => Some(TsVal::Str(s.clone())),
            _ => Some(TsVal::Other),
        }
    }
}

proof fn lemma_first_at(ms: Seq<(Seq<char>, JsonV)>, k: Seq<char>, i: int)
    requires
        0 <= i <= ms.len(),
        forall|j: int| 0 <= j < i ==> (#[trigger] ms[j]).0 != k,
        i < ms.len() ==> ms[i].0 == k,
    ensures
        first_at(ms, k) == i,
    decreases i,
{
    if i > 0 {
        assert(ms[0].0 != k);
        let t = ms.drop_first();
        assert forall|j: int| 0 <= j < i - 1 implies (#[trigger] t[j]).0 != k by {
            assert(t[j] == ms[j + 1]);
        }
        lemma_first_at(t, k, i - 1);
    }
}

/// Adds a member to a map.
fn put_member(out: &mut Vec<(String, Json)>, k: &String, v: &Json)
    ensures
        json::members_of(final(out)@) == put(json::members_of(old(out)@), (k@, v@)),
{
    let ghost before = json::members_of(out@);
    let mut i: usize = 0;
    while i < out.len() && !text::same(out[i].0.as_str(), k.as_str())
        invariant
            i <= out@.len(),
            before == json::members_of(out@),
            forall|j: int| 0 <= j < i ==> (#[trigger] before[j]).0 != k@,
        decreases out.len() - i,
    {
        assert(before[i as int].0 == out@[i as int].0@);
        i += 1;
    }
    proof {
        lemma_first_at(before, k@, i as int);
    }
    if i < out.len() {
        out.set(i, (k.clone(), v.copy()));
        assert(json::members_of(out@) =~= before.update(i as int, (k@, v@)));
    } else {
        out.push((k.clone(), v.copy()));
        assert(json::members_of(out@) =~= before.push((k@, v@)));
    }
}

impl InputMap {
    /// Reads the input of a tool call.
    pub fn from_json(v: &Json) -> (r: Option<InputMap>)
        ensures
            match r {
                Some(x) => input_map(v@) is Some && x@ == input_map(v@),
                None => input_map(v@) is None,
            },
    {
        broadcast use json::lemma_model;

        match v {
            Json::Bad => None,
            Json::Object(ms) => {
                if !v.is_strict() {
                    return None;
                }
                let ghost all = json::members_of(ms@);
                let mut out: Vec<(String, Json)> = Vec::new();
                let mut i: usize = 0;
                assert(json::members_of(out@) =~= Seq::empty());
                while i < ms.len()
                    invariant
                        i <= ms@.len(),
                        all == json::members_of(ms@),
                        json::members_of(out@) == settled(all.take(i as int)),
                    decreases ms.len() - i,
                {
                    assert(all.take(i + 1).drop_last() == all.take(i as int));
                    assert(all.take(i + 1).last() == (ms@[i as int].0@, ms@[i as int].1@));
                    put_member(&mut out, &ms[i].0, &ms[i].1);
                    i += 1;
                }
                assert(all.take(ms@.len() as int) == all);
                Some(InputMap(Some(out)))
            },
            _ => {
                let out: Vec<(String, Json)> = Vec::new();
                assert(json::members_of(out@) =~= Seq::empty());
                Some(InputMap(Some(out)))
            },
        }
    }
}

impl ContentField {
    /// Reads content.
    pub fn from_json(v: &Json) -> (r: Option<ContentField>)
        ensures
            match r {
                Some(x) => content_field(v@) == Some(x@),
                None => content_field(v@) is None,
            },
        decreases *v, 0nat,
    {
        broadcast use {json::lemma_model, lemma_content_model};

        match v {
            Json::Bad => None,
            Json::Str(s) => Some(ContentField::Str(s.clone())),
            Json::Array(a) => {
                let ghost vs = json::values(a@);
                assert(v@ == JsonV::Array(vs));
                let mut out: Vec<Node> = Vec::new();
                let mut i: usize = 0;
                while i < a.len()
                    invariant
                        i <= a@.len(),
                        i == out@.len(),
                        *v is Array,
                        v->Array_0 == *a,
                        v@ == JsonV::Array(vs),
                        vs == json::values(a@),
                        forall|k: int| 0 <= k < i ==> node(#[trigger] vs[k]) == Some(out@[k]@),
                    decreases a.len() - i,
                {
                    assert(vs[i as int] == a@[i as int]@);
                    match Node::from_json(&a[i]) {
                        Some(n) => {
                            out.push(n);
                        },
                        None => {
                            proof {
                                lemma_unreadable_item(vs, i as int);
                            }
                            return None;
                        },
                    }
                    i += 1;
                }
                let r = ContentField::List(out);
                proof {
                    lemma_readable_items(vs, nodes(out@));
                }
                Some(r)
            },
            _ => Some(ContentField::Other),
        }
    }
}

proof fn lemma_unreadable_item(a: Seq<JsonV>, i: int)
    requires
        0 <= i < a.len(),
        node(a[i]) is None,
    ensures
        content_field(JsonV::Array(a)) is None,
{
}

proof fn lemma_readable_items(a: Seq<JsonV>, ns: Seq<NodeV>)
    requires
        a.len() == ns.len(),
        forall|k: int| 0 <= k < a.len() ==> node(#[trigger] a[k]) == Some(ns[k]),
    ensures
        content_field(JsonV::Array(a)) == Some(ContentV::List(ns)),
{
    assert(content_field(JsonV::Array(a)) is Some);
    assert(content_field(JsonV::Array(a))->0->List_0 =~= ns);
}

impl Node {
    /// Reads an item of content.
    pub fn from_json(v: &Json) -> (r: Option<Node>)
        ensures
            match r {
                Some(x) => node(v@) == Some(x@),
                None => node(v@) is None,
            },
        decreases *v, 0nat,
    {
        broadcast use json::lemma_model;

        match v {
            Json::Bad => None,
            Json::Str(s) => Some(Node::Str(s.clone())),
            Json::Object(ms) => {
                match Block::from_members(ms) {
                    Some(b) => Some(Node::Block(Box::new(b))),
                    None => None,
                }
            },
            _ => Some(Node::Other),
        }
    }
}

impl Block {
    /// Reads a block.
    fn from_members(ms: &Vec<(String, Json)>) -> (r: Option<Block>)
        ensures
            match r {
                Some(x) => block(json::members_of(ms@)) == Some(x@),
                None => block(json::members_of(ms@)) is None,
            },
        decreases *ms, 0nat,
    {
        let ghost all = json::members_of(ms@);
        let mut out = Block {
            text: MaybeStr::Absent,
            content: ContentField::Absent,
            btype: MaybeStr::Absent,
            name: MaybeStr::Absent,
            input: InputMap(None),
            is_error: Present::Absent,
        };
        let mut i: usize = 0;
        assert(out.content.model() == ContentV::Absent);
        assert(block(all.take(0)) == Some(out@));
        while i < ms.len()
            invariant
                i <= ms@.len(),
                all == json::members_of(ms@),
                block(all.take(i as int)) == Some(out@),
            decreases ms.len() - i,
        {
            assert(all.take(i + 1).drop_last() == all.take(i as int));
            assert(all.take(i + 1)[i as int] == (ms@[i as int].0@, ms@[i as int].1@));
            if !out.member(ms[i].0.as_str(), &ms[i].1) {
                proof {
                    lemma_unreadable_member(all, i + 1);
                }
                return None;
            }
            i += 1;
        }
        assert(all.take(ms@.len() as int) == all);
        Some(out)
    }

    /// Reads one member. Returns whether it could be read.
    fn member(&mut self, k: &str, v: &Json) -> (r: bool)
        ensures
            match block_member(old(self)@, k@, v@) {
                Some(b) => r && final(self)@ == b,
                None => !r,
            },
        decreases *v, 1nat,
    {
        if text::same(k, "text") {
            match MaybeStr::from_json(v) {
                Some(x) => {
                    self.text = x;
                },
                None => {
                    return false;
                },
            }
        } else if text::same(k, "content") {
            match ContentField::from_json(v) {
                Some(x) => {
                    self.content = x;
                },
                None => {
                    return false;
                },
            }
        } else if text::same(k, "type") {
            match MaybeStr::from_json(v) {
                Some(x) => {
                    self.btype = x;
                },
                None => {
                    return false;
                },
            }
        } else if text::same(k, "name") {
            match MaybeStr::from_json(v) {
                Some(x) => {
                    self.name = x;
                },
                None => {
                    return false;
                },
            }
        } else if text::same(k, "input") {
            match InputMap::from_json(v) {
                Some(x) => {
                    self.input = x;
                },
                None => {
                    return false;
                },
            }
        } else if text::same(k, "is_error") {
            match Present::from_json(v) {
                Some(x) => {
                    self.is_error = x;
                },
                None => {
                    return false;
                },
            }
        }
        true
    }
}

/// Once a member could not be read, the block cannot.
proof fn lemma_unreadable_member(ms: Seq<(Seq<char>, JsonV)>, n: int)
    requires
        0 <= n <= ms.len(),
        block(ms.take(n)) is None,
    ensures
        block(ms) is None,
    decreases ms.len() - n,
{
    if n < ms.len() {
        assert(ms.take(n + 1).drop_last() == ms.take(n));
        lemma_unreadable_member(ms, n + 1);
    } else {
        assert(ms.take(n) == ms);
    }
}

/// Once a member could not be read, the count cannot.
proof fn lemma_unreadable_usage(ms: Seq<(Seq<char>, JsonV)>, n: int)
    requires
        0 <= n <= ms.len(),
        usage_members(ms.take(n)) is None,
    ensures
        usage_members(ms) is None,
    decreases ms.len() - n,
{
    if n < ms.len() {
        assert(ms.take(n + 1).drop_last() == ms.take(n));
        lemma_unreadable_usage(ms, n + 1);
    } else {
        assert(ms.take(n) == ms);
    }
}

impl Usage {
    fn none() -> (r: Usage)
        ensures
            r@ == no_usage(),
    {
        Usage {
            input_tokens: IntOrNull(None),
            output_tokens: IntOrNull(None),
            cache_read_input_tokens: IntOrNull(None),
        }
    }

    fn from_members(ms: &Vec<(String, Json)>) -> (r: Option<Usage>)
        ensures
            match r {
                Some(x) => usage_members(json::members_of(ms@)) == Some(x@),
                None => usage_members(json::members_of(ms@)) is None,
            },
    {
        let ghost all = json::members_of(ms@);
        let mut out = Usage::none();
        let mut i: usize = 0;
        assert(usage_members(all.take(0)) == Some(out@));
        while i < ms.len()
            invariant
                i <= ms@.len(),
                all == json::members_of(ms@),
                usage_members(all.take(i as int)) == Some(out@),
            decreases ms.len() - i,
        {
            assert(all.take(i + 1).drop_last() == all.take(i as int));
            assert(all.take(i + 1).last() == (ms@[i as int].0@, ms@[i as int].1@));
            if !out.member(ms[i].0.as_str(), &ms[i].1) {
                proof {
                    lemma_unreadable_usage(all, i + 1);
                }
                return None;
            }
            i += 1;
        }
        assert(all.take(ms@.len() as int) == all);
        Some(out)
    }

    /// Reads one member. Returns whether it could be read.
    fn member(&mut self, k: &str, v: &Json) -> (r: bool)
        ensures
            match usage_member(old(self)@, k@, v@) {
                Some(x) => r && final(self)@ == x,
                None => !r,
            },
    {
        if text::same(k, "input_tokens") {
            match IntOrNull::from_json(v) {
                Some(x) => {
                    self.input_tokens = x;
                },
                None => {
                    return false;
                },
            }
        } else if text::same(k, "output_tokens") {
            match IntOrNull::from_json(v) {
                Some(x) => {
                    self.output_tokens = x;
                },
                None => {
                    return false;
                },
            }
        } else if text::same(k, "cache_read_input_tokens") {
            match IntOrNull::from_json(v) {
                Some(x) => {
                    self.cache_read_input_tokens = x;
                },
                None => {
                    return false;
                },
            }
        }
        true
    }

    /// Reads token counts.
    pub fn from_json(v: &Json) -> (r: Option<Usage>)
        ensures
            match r {
                Some(x) => usage(v@) == Some(x@),
                None => usage(v@) is None,
            },
    {
        broadcast use json::lemma_model;

        match v {
            Json::Bad => None,
            Json::Object(ms) => Usage::from_members(ms),
            _ => Some(Usage::none()),
        }
    }
}

/// Once a member could not be read, the message cannot.
proof fn lemma_unreadable_msg(ms: Seq<(Seq<char>, JsonV)>, n: int)
    requires
        0 <= n <= ms.len(),
        msg_members(ms.take(n)) is None,
    ensures
        msg_members(ms) is None,
    decreases ms.len() - n,
{
    if n < ms.len() {
        assert(ms.take(n + 1).drop_last() == ms.take(n));
        lemma_unreadable_msg(ms, n + 1);
    } else {
        assert(ms.take(n) == ms);
    }
}

impl Msg {
    fn none() -> (r: Msg)
        ensures
            r@ == no_msg(),
    {
        Msg {
            role: MaybeStr::Absent,
            model: MaybeStr::Absent,
            content: ContentField::Absent,
            usage: Usage::none(),
        }
    }

    fn from_members(ms: &Vec<(String, Json)>) -> (r: Option<Msg>)
        ensures
            match r {
                Some(x) => msg_members(json::members_of(ms@)) == Some(x@),
                None => msg_members(json::members_of(ms@)) is None,
            },
    {
        let ghost all = json::members_of(ms@);
        let mut out = Msg::none();
        let mut i: usize = 0;
        assert(msg_members(all.take(0)) == Some(out@));
        while i < ms.len()
            invariant
                i <= ms@.len(),
                all == json::members_of(ms@),
                msg_members(all.take(i as int)) == Some(out@),
            decreases ms.len() - i,
        {
            assert(all.take(i + 1).drop_last() == all.take(i as int));
            assert(all.take(i + 1).last() == (ms@[i as int].0@, ms@[i as int].1@));
            if !out.member(ms[i].0.as_str(), &ms[i].1) {
                proof {
                    lemma_unreadable_msg(all, i + 1);
                }
                return None;
            }
            i += 1;
        }
        assert(all.take(ms@.len() as int) == all);
        Some(out)
    }

    /// Reads one member. Returns whether it could be read.
    fn member(&mut self, k: &str, v: &Json) -> (r: bool)
        ensures
            match msg_member(old(self)@, k@, v@) {
                Some(x) => r && final(self)@ == x,
                None => !r,
            },
    {
        if text::same(k, "role") {
            match MaybeStr::from_json(v) {
                Some(x) => {
                    self.role = x;
                },
                None => {
                    return false;
                },
            }
        } else if text::same(k, "model") {
            match MaybeStr::from_json(v) {
                Some(x) => {
                    self.model = x;
                },
                None => {
                    return false;
                },
            }
        } else if text::same(k, "content") {
            match ContentField::from_json(v) {
                Some(x) => {
                    self.content = x;
                },
                None => {
                    return false;
                },
            }
        } else if text::same(k, "usage") {
            match Usage::from_json(v) {
                Some(x) => {
                    self.usage = x;
                },
                None => {
                    return false;
                },
            }
        }
        true
    }

    /// Reads a message.
    pub fn from_json(v: &Json) -> (r: Option<Msg>)
        ensures
            match r {
                Some(x) => msg(v@) == Some(x@),
                None => msg(v@) is None,
            },
    {
        broadcast use json::lemma_model;

        match v {
            Json::Bad => None,
            Json::Object(ms) => Msg::from_members(ms),
            _ => Some(Msg::none()),
        }
    }
}

/// Once a member could not be read, the record cannot.
proof fn lemma_unreadable_rec(ms: Seq<(Seq<char>, JsonV)>, n: int)
    requires
        0 <= n <= ms.len(),
        rec_members(ms.take(n)) is None,
    ensures
        rec_members(ms) is None,
    decreases ms.len() - n,
{
    if n < ms.len() {
        assert(ms.take(n + 1).drop_last() == ms.take(n));
        lemma_unreadable_rec(ms, n + 1);
    } else {
        assert(ms.take(n) == ms);
    }
}

impl Rec {
    fn none() -> (r: Rec)
        ensures
            r@ == no_rec(),
    {
        Rec { timestamp: TsVal::Absent, rtype: MaybeStr::Absent, message: Msg::none() }
    }

    fn from_members(ms: &Vec<(String, Json)>) -> (r: Option<Rec>)
        ensures
            match r {
                Some(x) => rec_members(json::members_of(ms@)) == Some(x@),
                None => rec_members(json::members_of(ms@)) is None,
            },
    {
        let ghost all = json::members_of(ms@);
        let mut out = Rec::none();
        let mut i: usize = 0;
        assert(rec_members(all.take(0)) == Some(out@));
        while i < ms.len()
            invariant
                i <= ms@.len(),
                all == json::members_of(ms@),
                rec_members(all.take(i as int)) == Some(out@),
            decreases ms.len() - i,
        {
            assert(all.take(i + 1).drop_last() == all.take(i as int));
            assert(all.take(i + 1).last() == (ms@[i as int].0@, ms@[i as int].1@));
            if !out.member(ms[i].0.as_str(), &ms[i].1) {
                proof {
                    lemma_unreadable_rec(all, i + 1);
                }
                return None;
            }
            i += 1;
        }
        assert(all.take(ms@.len() as int) == all);
        Some(out)
    }

    /// Reads one member. Returns whether it could be read.
    fn member(&mut self, k: &str, v: &Json) -> (r: bool)
        ensures
            match rec_member(old(self)@, k@, v@) {
                Some(x) => r && final(self)@ == x,
                None => !r,
            },
    {
        if text::same(k, "timestamp") {
            match TsVal::from_json(v) {
                Some(x) => {
                    self.timestamp = x;
                },
                None => {
                    return false;
                },
            }
        } else if text::same(k, "type") {
            match MaybeStr::from_json(v) {
                Some(x) => {
                    self.rtype = x;
                },
                None => {
                    return false;
                },
            }
        } else if text::same(k, "message") {
            match Msg::from_json(v) {
                Some(x) => {
                    self.message = x;
                },
                None => {
                    return false;
                },
            }
        }
        true
    }

    /// Reads a record. Only an object is one.
    pub fn from_json(v: &Json) -> (r: Option<Rec>)
        ensures
            match r {
                Some(x) => rec(v@) == Some(x@),
                None => rec(v@) is None,
            },
    {
        broadcast use json::lemma_model;

        match v {
            Json::Object(ms) => Rec::from_members(ms),
            _ => None,
        }
    }
}

// ---------------------------------------------------------------------------
// What a record says
// ---------------------------------------------------------------------------

/// A member is read as a string where it is one, and only there.
pub open spec fn reads_as(v: Option<JsonV>, m: MaybeStrV) -> bool {
    &&& v matches Some(JsonV::Str(s)) ==> m == MaybeStrV::Str(s)
    &&& v is None || v == Some(JsonV::Null) ==> m is Absent
    &&& m matches MaybeStrV::Str(s) ==> v == Some(JsonV::Str(s))
}

/// A member is read as a number of tokens: an integer as it is, true as one and
/// false as none, and anything else as nothing.
pub open spec fn counts_as(v: Option<JsonV>, n: Option<int>) -> bool {
    &&& v matches Some(JsonV::Num(Num::Int(i))) ==> n == Some(i as int)
    &&& v matches Some(JsonV::Num(Num::UInt(u))) ==> u <= i64::MAX ==> n == Some(u as int)
    &&& v matches Some(JsonV::Bool(b)) ==> n == Some(
        if b {
            1int
        } else {
            0int
        },
    )
    &&& v matches Some(JsonV::Str(_)) ==> n is None
    &&& v matches Some(JsonV::Num(Num::Float(_))) ==> n is None
    &&& v is None || v == Some(JsonV::Null) ==> n is None
}

/// A member is read as content: a string as it is, and a list item by item.
pub open spec fn content_as(v: Option<JsonV>, c: ContentV) -> bool {
    &&& v matches Some(JsonV::Str(s)) ==> c == ContentV::Str(s)
    &&& v matches Some(JsonV::Array(a)) ==> (c is List && c->List_0.len() == a.len() && forall|
        i: int,
    |
        0 <= i < a.len() ==> node(a[i]) == Some(#[trigger] c->List_0[i]))
    &&& v is None ==> c is Absent
    &&& c matches ContentV::Str(s) ==> v == Some(JsonV::Str(s))
    &&& c is List ==> (v matches Some(JsonV::Array(_)))
}

proof fn lemma_usage_names()
    ensures
        "input_tokens"@.len() == 12,
        "output_tokens"@.len() == 13,
        "cache_read_input_tokens"@.len() == 23,
{
    reveal_strlit("input_tokens");
    reveal_strlit("output_tokens");
    reveal_strlit("cache_read_input_tokens");
}

/// The numbers of tokens are those of the members with their names.
pub proof fn law_usage(ms: Seq<(Seq<char>, JsonV)>)
    ensures
        usage(JsonV::Object(ms)) matches Some(u) ==> counts_as(
            json::lookup(ms, "input_tokens"@),
            u.input_tokens,
        ) && counts_as(json::lookup(ms, "output_tokens"@), u.output_tokens) && counts_as(
            json::lookup(ms, "cache_read_input_tokens"@),
            u.cache_read_input_tokens,
        ),
    decreases ms.len(),
{
    lemma_usage_names();
    if ms.len() > 0 {
        law_usage(ms.drop_last());
        json::lemma_lookup_last(ms, "input_tokens"@);
        json::lemma_lookup_last(ms, "output_tokens"@);
        json::lemma_lookup_last(ms, "cache_read_input_tokens"@);
    }
}

proof fn lemma_msg_names()
    ensures
        "role"@.len() == 4,
        "model"@.len() == 5 && "model"@[0] == 'm',
        "content"@.len() == 7,
        "usage"@.len() == 5 && "usage"@[0] == 'u',
{
    reveal_strlit("role");
    reveal_strlit("model");
    reveal_strlit("content");
    reveal_strlit("usage");
}

/// The parts of a message are those of the members with their names.
#[verifier::spinoff_prover]
#[verifier::rlimit(60)]
pub proof fn law_message(ms: Seq<(Seq<char>, JsonV)>)
    ensures
        msg(JsonV::Object(ms)) matches Some(m) ==> {
            &&& reads_as(json::lookup(ms, "role"@), m.role)
            &&& reads_as(json::lookup(ms, "model"@), m.model)
            &&& content_as(json::lookup(ms, "content"@), m.content)
            &&& json::lookup(ms, "usage"@) matches Some(v) ==> usage(v) == Some(m.usage)
            &&& json::lookup(ms, "usage"@) is None ==> m.usage == no_usage()
        },
    decreases ms.len(),
{
    lemma_msg_names();
    if ms.len() > 0 {
        law_message(ms.drop_last());
        json::lemma_lookup_last(ms, "role"@);
        json::lemma_lookup_last(ms, "model"@);
        json::lemma_lookup_last(ms, "content"@);
        json::lemma_lookup_last(ms, "usage"@);
    }
}

proof fn lemma_rec_names()
    ensures
        "timestamp"@.len() == 9,
        "type"@.len() == 4,
        "message"@.len() == 7,
{
    reveal_strlit("timestamp");
    reveal_strlit("type");
    reveal_strlit("message");
}

/// The parts of a record are those of the members with their names.
#[verifier::spinoff_prover]
#[verifier::rlimit(60)]
pub proof fn law_record(ms: Seq<(Seq<char>, JsonV)>)
    ensures
        rec(JsonV::Object(ms)) matches Some(r) ==> {
            let t = json::lookup(ms, "timestamp"@);
            &&& reads_as(json::lookup(ms, "type"@), r.rtype)
            &&& t matches Some(JsonV::Str(s)) ==> r.timestamp == TsValV::Str(s)
            &&& t matches Some(JsonV::Num(Num::Int(i))) ==> r.timestamp == TsValV::Int(i as int)
            &&& t matches Some(JsonV::Num(Num::UInt(u))) ==> r.timestamp == TsValV::Int(u as int)
            &&& t matches Some(JsonV::Num(Num::Float(f))) ==> r.timestamp == TsValV::Float(f)
            &&& t is None ==> r.timestamp is Absent
            &&& json::lookup(ms, "message"@) matches Some(v) ==> msg(v) == Some(r.message)
            &&& json::lookup(ms, "message"@) is None ==> r.message == no_msg()
        },
    decreases ms.len(),
{
    lemma_rec_names();
    if ms.len() > 0 {
        law_record(ms.drop_last());
        json::lemma_lookup_last(ms, "timestamp"@);
        json::lemma_lookup_last(ms, "type"@);
        json::lemma_lookup_last(ms, "message"@);
    }
}

proof fn lemma_block_names()
    ensures
        "text"@.len() == 4 && "text"@[0] == 't' && "text"@[1] == 'e',
        "content"@.len() == 7,
        "type"@.len() == 4 && "type"@[0] == 't' && "type"@[1] == 'y',
        "name"@.len() == 4 && "name"@[0] == 'n',
        "input"@.len() == 5,
        "is_error"@.len() == 8,
{
    reveal_strlit("text");
    reveal_strlit("content");
    reveal_strlit("type");
    reveal_strlit("name");
    reveal_strlit("input");
    reveal_strlit("is_error");
}

/// The parts of a block are those of the members with their names; its error mark
/// is the value itself, and absent where there is none.
#[verifier::spinoff_prover]
#[verifier::rlimit(60)]
pub proof fn law_block(ms: Seq<(Seq<char>, JsonV)>)
    ensures
        block(ms) matches Some(b) ==> {
            let i = json::lookup(ms, "input"@);
            &&& reads_as(json::lookup(ms, "text"@), b.text)
            &&& reads_as(json::lookup(ms, "type"@), b.btype)
            &&& reads_as(json::lookup(ms, "name"@), b.name)
            &&& content_as(json::lookup(ms, "content"@), b.content)
            &&& b.is_error == json::lookup(ms, "is_error"@)
            &&& i is None ==> b.input is None
            &&& i matches Some(JsonV::Object(im)) ==> b.input == Some(settled(im))
        },
    decreases ms.len(),
{
    lemma_block_names();
    if ms.len() > 0 {
        law_block(ms.drop_last());
        let k = ms.last().0;
        let v = ms.last().1;
        match block(ms.drop_last()) {
            Some(b) => {
                assert(block(ms) == block_member(b, k, v));
                assert(content_field(v) matches Some(c) ==> content_as(Some(v), c));
            },
            None => {},
        }
        json::lemma_lookup_last(ms, "text"@);
        json::lemma_lookup_last(ms, "content"@);
        json::lemma_lookup_last(ms, "type"@);
        json::lemma_lookup_last(ms, "name"@);
        json::lemma_lookup_last(ms, "input"@);
        json::lemma_lookup_last(ms, "is_error"@);
    }
}

/// An item of a list is read as a string where it is one, and as a block where it
/// is an object.
pub proof fn law_node(v: JsonV)
    ensures
        v matches JsonV::Str(s) ==> node(v) == Some(NodeV::Str(s)),
        v matches JsonV::Object(ms) ==> (node(v) matches Some(n) ==> n is Block && block(ms) == Some(
            n->Block_0,
        )),
        v is Null || v is Bool || v is Num || v is Array ==> node(v) == Some(NodeV::Other),
{
}

/// Every key stands once.
pub open spec fn keys_once(ms: Seq<(Seq<char>, JsonV)>) -> bool {
    forall|i: int, j: int| 0 <= i < j < ms.len() ==> (#[trigger] ms[i]).0 != (#[trigger] ms[j]).0
}

proof fn lemma_found(ms: Seq<(Seq<char>, JsonV)>, k: Seq<char>)
    ensures
        0 <= first_at(ms, k) <= ms.len(),
        first_at(ms, k) < ms.len() ==> ms[first_at(ms, k)].0 == k,
        forall|j: int| 0 <= j < first_at(ms, k) ==> (#[trigger] ms[j]).0 != k,
    decreases ms.len(),
{
    if ms.len() > 0 && ms[0].0 != k {
        let t = ms.drop_first();
        lemma_found(t, k);
        assert forall|j: int| 0 <= j < first_at(ms, k) implies (#[trigger] ms[j]).0 != k by {
            if j > 0 {
                assert(t[j - 1] == ms[j]);
            }
        }
    }
}

#[verifier::spinoff_prover]
#[verifier::rlimit(60)]
proof fn lemma_put(ms: Seq<(Seq<char>, JsonV)>, m: (Seq<char>, JsonV), k: Seq<char>)
    requires
        keys_once(ms),
    ensures
        keys_once(put(ms, m)),
        json::lookup(put(ms, m), k) == (if m.0 == k {
            Some(m.1)
        } else {
            json::lookup(ms, k)
        }),
{
    lemma_found(ms, m.0);
    let i = first_at(ms, m.0);
    let p = put(ms, m);
    json::law_lookup(ms, m, k);
    json::law_lookup(p, m, k);
    if i < ms.len() {
        assert forall|a: int, b: int| 0 <= a < b < p.len() implies (#[trigger] p[a]).0 != (
        #[trigger] p[b]).0 by {
            assert(ms[a].0 != ms[b].0);
        }
        if m.0 == k {
            assert forall|j: int| 0 <= j < p.len() && j != i implies (#[trigger] p[j]).0 != k by {
                if j < i {
                    assert(ms[j].0 != ms[i].0);
                } else {
                    assert(ms[i].0 != ms[j].0);
                }
            }
            json::lemma_lookup_at(p, k, i);
        } else {
            match json::lookup(ms, k) {
                Some(v) => {
                    let j = ms.index_of((k, v));
                    assert(ms[j] == (k, v));
                    assert(p[j] == ms[j]);
                    assert forall|a: int| 0 <= a < p.len() && a != j implies (#[trigger] p[a]).0
                        != k by {
                        if a < j {
                            assert(p[a].0 != p[j].0);
                        } else {
                            assert(p[j].0 != p[a].0);
                        }
                    }
                    json::lemma_lookup_at(p, k, j);
                },
                None => {
                    match json::lookup(p, k) {
                        Some(v) => {
                            let j = p.index_of((k, v));
                            assert(p[j] == (k, v));
                            assert(ms[j].0 == p[j].0);
                        },
                        None => {},
                    }
                },
            }
        }
    } else {
        assert forall|a: int, b: int| 0 <= a < b < p.len() implies (#[trigger] p[a]).0 != (
        #[trigger] p[b]).0 by {
            assert(p[a] == ms[a]);
            if b < ms.len() {
                assert(p[b] == ms[b]);
                assert(ms[a].0 != ms[b].0);
            }
        }
    }
}

/// The input of a tool has every key once, with the value that it has last.
pub proof fn law_input_settles(ms: Seq<(Seq<char>, JsonV)>, k: Seq<char>)
    ensures
        keys_once(settled(ms)),
        json::lookup(settled(ms), k) == json::lookup(ms, k),
    decreases ms.len(),
{
    if ms.len() > 0 {
        law_input_settles(ms.drop_last(), k);
        lemma_put(settled(ms.drop_last()), ms.last(), k);
        json::lemma_lookup_last(ms, k);
    } else {
        assert(settled(ms) =~= ms);
    }
}

proof fn lemma_strict_content(v: JsonV)
    requires
        json::strict(v),
    ensures
        content_field(v) is Some,
    decreases v, 2nat,
{
    match v {
        JsonV::Array(a) => {
            assert forall|i: int| 0 <= i < a.len() implies node(#[trigger] a[i]) is Some by {
                lemma_strict_node(a[i]);
            }
        },
        _ => {},
    }
}

proof fn lemma_strict_node(v: JsonV)
    requires
        json::strict(v),
    ensures
        node(v) is Some,
    decreases v, 2nat,
{
    match v {
        JsonV::Object(ms) => {
            assert forall|i: int| 0 <= i < ms.len() implies json::strict((#[trigger] ms[i]).1) by {
                json::law_strict(v, i);
            }
            lemma_strict_block(ms);
        },
        _ => {},
    }
}

proof fn lemma_strict_block(ms: Seq<(Seq<char>, JsonV)>)
    requires
        forall|i: int| 0 <= i < ms.len() ==> json::strict((#[trigger] ms[i]).1),
    ensures
        block(ms) is Some,
    decreases ms, 0nat,
{
    if ms.len() > 0 {
        let d = ms.drop_last();
        assert forall|i: int| 0 <= i < d.len() implies json::strict((#[trigger] d[i]).1) by {
            assert(d[i] == ms[i]);
        }
        lemma_strict_block(d);
        assert(json::strict(ms[ms.len() - 1].1));
        lemma_strict_content(ms[ms.len() - 1].1);
        let b = block(d)->Some_0;
        let k = ms.last().0;
        let v = ms[ms.len() - 1].1;
        assert(block(ms) == block_member(b, k, v));
    }
}

proof fn lemma_strict_usage(ms: Seq<(Seq<char>, JsonV)>)
    requires
        forall|i: int| 0 <= i < ms.len() ==> json::strict((#[trigger] ms[i]).1),
    ensures
        usage_members(ms) is Some,
    decreases ms.len(),
{
    if ms.len() > 0 {
        let d = ms.drop_last();
        assert forall|i: int| 0 <= i < d.len() implies json::strict((#[trigger] d[i]).1) by {
            assert(d[i] == ms[i]);
        }
        lemma_strict_usage(d);
        assert(json::strict(ms[ms.len() - 1].1));
    }
}

proof fn lemma_strict_msg(ms: Seq<(Seq<char>, JsonV)>)
    requires
        forall|i: int| 0 <= i < ms.len() ==> json::strict((#[trigger] ms[i]).1),
    ensures
        msg_members(ms) is Some,
    decreases ms.len(),
{
    if ms.len() > 0 {
        let d = ms.drop_last();
        assert forall|i: int| 0 <= i < d.len() implies json::strict((#[trigger] d[i]).1) by {
            assert(d[i] == ms[i]);
        }
        lemma_strict_msg(d);
        let v = ms[ms.len() - 1].1;
        assert(json::strict(v));
        lemma_strict_content(v);
        match v {
            JsonV::Object(us) => {
                assert forall|i: int| 0 <= i < us.len() implies json::strict(
                    (#[trigger] us[i]).1,
                ) by {
                    json::law_strict(v, i);
                }
                lemma_strict_usage(us);
            },
            _ => {},
        }
    }
}

/// Every object without a fault in it is read as a record, whatever its members
/// are.
pub proof fn law_strict_is_readable(ms: Seq<(Seq<char>, JsonV)>)
    requires
        forall|i: int| 0 <= i < ms.len() ==> json::strict((#[trigger] ms[i]).1),
    ensures
        rec(JsonV::Object(ms)) is Some,
    decreases ms.len(),
{
    if ms.len() > 0 {
        let d = ms.drop_last();
        assert forall|i: int| 0 <= i < d.len() implies json::strict((#[trigger] d[i]).1) by {
            assert(d[i] == ms[i]);
        }
        law_strict_is_readable(d);
        let v = ms[ms.len() - 1].1;
        assert(json::strict(v));
        match v {
            JsonV::Object(mm) => {
                assert forall|i: int| 0 <= i < mm.len() implies json::strict(
                    (#[trigger] mm[i]).1,
                ) by {
                    json::law_strict(v, i);
                }
                lemma_strict_msg(mm);
            },
            _ => {},
        }
    }
}

} // verus!
