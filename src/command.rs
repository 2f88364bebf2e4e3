use vstd::prelude::*;
use crate::frame::{Frame, FrameV};
use crate::parse::{parse_int, parse_int_exec, frames_view};
use crate::db::{
    Db, SlotV, SubV, stored, visible, key_is_not, on_channel, subscriber_of, deadline,
    expiry_deadline, lemma_lookup_stored, lemma_deleted,
};

verus! {

broadcast use vstd::std_specs::vec::axiom_vec_index_decreases;

/// A request, read from an array of bulk strings.
#[derive(Debug, PartialEq, Eq)]
pub enum Command {
    /// Replies `PONG`, or echoes its argument.
    Ping(Option<Vec<u8>>),
    Get(Vec<u8>),
    /// Key, value, and a lifetime in seconds.
    SetKey(Vec<u8>, Vec<u8>, Option<u64>),
    Del(Vec<u8>),
    /// Channel and message.
    Publish(Vec<u8>, Vec<u8>),
    /// The channels, in the order given.
    Subscribe(Vec<Vec<u8>>),
}

pub enum CommandV {
    Ping(Option<Seq<u8>>),
    Get(Seq<u8>),
    SetKey(Seq<u8>, Seq<u8>, Option<u64>),
    Del(Seq<u8>),
    Publish(Seq<u8>, Seq<u8>),
    Subscribe(Seq<Seq<u8>>),
}

pub open spec fn bytes_view(v: Seq<Vec<u8>>) -> Seq<Seq<u8>> {
    Seq::new(v.len(), |i: int| v[i]@)
}

impl View for Command {
    type V = CommandV;

    open spec fn view(&self) -> CommandV {
        match *self {
            Command::Ping(m) => CommandV::Ping(
                match m {
                    Some(t) => Some(t@),
                    None => None,
                },
            ),
            Command::Get(k) => CommandV::Get(k@),
            Command::SetKey(k, v, e) => CommandV::SetKey(k@, v@, e),
            Command::Del(k) => CommandV::Del(k@),
            Command::Publish(c, m) => CommandV::Publish(c@, m@),
            Command::Subscribe(cs) => CommandV::Subscribe(bytes_view(cs@)),
        }
    }
}

/// Why a frame is no command. The connection goes on; the client is told.
#[derive(PartialEq, Eq, Structural, Debug, Clone, Copy)]
pub enum CommandError {
    NotArray,
    NotBulk,
    MissingVerb,
    UnknownVerb,
    WrongArity,
    BadExpiry,
    Syntax,
}

pub open spec fn word_ping() -> Seq<u8> {
    seq![80u8, 73, 78, 71]
}

pub open spec fn word_get() -> Seq<u8> {
    seq![71u8, 69, 84]
}

pub open spec fn word_set() -> Seq<u8> {
    seq![83u8, 69, 84]
}

pub open spec fn word_del() -> Seq<u8> {
    seq![68u8, 69, 76]
}

pub open spec fn word_publish() -> Seq<u8> {
    seq![80u8, 85, 66, 76, 73, 83, 72]
}

pub open spec fn word_subscribe() -> Seq<u8> {
    seq![83u8, 85, 66, 83, 67, 82, 73, 66, 69]
}

pub open spec fn word_ex() -> Seq<u8> {
    seq![69u8, 88]
}

/// The ASCII upper case of a byte.
pub open spec fn upper(b: u8) -> u8 {
    if 97 <= b <= 122 {
        (b - 32) as u8
    } else {
        b
    }
}

/// Whether `v` is the upper-case word `w`, in any case.
pub open spec fn is_word(v: Seq<u8>, w: Seq<u8>) -> bool {
    v.len() == w.len() && forall|i: int| 0 <= i < v.len() ==> upper(#[trigger] v[i]) == w[i]
}

/// The payloads of an array of bulk strings, if all its elements are such.
pub open spec fn bulk_payloads(items: Seq<FrameV>) -> Option<Seq<Seq<u8>>> {
    if forall|i: int| 0 <= i < items.len() ==> (#[trigger] items[i]) is Bulk {
        Some(Seq::new(items.len(), |i: int| items[i]->Bulk_0))
    } else {
        None
    }
}

/// The command that a verb and its arguments make.
pub open spec fn command_from_words(verb: Seq<u8>, args: Seq<Seq<u8>>) -> Result<CommandV, CommandError> {
    let n = args.len();
    if is_word(verb, word_ping()) {
        if n == 0 {
            Ok(CommandV::Ping(None))
        } else if n == 1 {
            Ok(CommandV::Ping(Some(args[0])))
        } else {
            Err(CommandError::WrongArity)
        }
    } else if is_word(verb, word_get()) {
        if n == 1 {
            Ok(CommandV::Get(args[0]))
        } else {
            Err(CommandError::WrongArity)
        }
    } else if is_word(verb, word_set()) {
        if n == 2 {
            Ok(CommandV::SetKey(args[0], args[1], None))
        } else if n == 4 {
            if !is_word(args[2], word_ex()) {
                Err(CommandError::Syntax)
            } else {
                match parse_int(args[3]) {
                    Some(s) => if s > 0 {
                        Ok(CommandV::SetKey(args[0], args[1], Some(s as u64)))
                    } else {
                        Err(CommandError::BadExpiry)
                    },
                    None => Err(CommandError::BadExpiry),
                }
            }
        } else {
            Err(CommandError::WrongArity)
        }
    } else if is_word(verb, word_del()) {
        if n == 1 {
            Ok(CommandV::Del(args[0]))
        } else {
            Err(CommandError::WrongArity)
        }
    } else if is_word(verb, word_publish()) {
        if n == 2 {
            Ok(CommandV::Publish(args[0], args[1]))
        } else {
            Err(CommandError::WrongArity)
        }
    } else if is_word(verb, word_subscribe()) {
        if n >= 1 {
            Ok(CommandV::Subscribe(args))
        } else {
            Err(CommandError::WrongArity)
        }
    } else {
        Err(CommandError::UnknownVerb)
    }
}

/// The command that a frame stands for.
pub open spec fn command_of(f: FrameV) -> Result<CommandV, CommandError> {
    match f {
        FrameV::Array(items) => match bulk_payloads(items) {
            None => Err(CommandError::NotBulk),
            Some(words) => if words.len() == 0 {
                Err(CommandError::MissingVerb)
            } else {
                command_from_words(words[0], words.subrange(1, words.len() as int))
            },
        },
        _ => Err(CommandError::NotArray),
    }
}

fn is_word_exec(v: &[u8], w: &[u8]) -> (r: bool)
    ensures
        r == is_word(v@, w@),
{
    if v.len() != w.len() {
        return false;
    }
    let mut i: usize = 0;
    while i < v.len()
        invariant
            v.len() == w.len(),
            i <= v.len(),
            forall|j: int| 0 <= j < i ==> upper(#[trigger] v@[j]) == w@[j],
        decreases v.len() - i,
    {
        let b = v[i];
        let u = if 97 <= b && b <= 122 {
            b - 32
        } else {
            b
        };
        if u != w[i] {
            return false;
        }
        i = i + 1;
    }
    true
}

fn word_ping_exec() -> (r: Vec<u8>)
    ensures
        r@ == word_ping(),
{
    let r = vec![80u8, 73, 78, 71];
    assert(r@ =~= word_ping());
    r
}

fn word_get_exec() -> (r: Vec<u8>)
    ensures
        r@ == word_get(),
{
    let r = vec![71u8, 69, 84];
    assert(r@ =~= word_get());
    r
}

fn word_set_exec() -> (r: Vec<u8>)
    ensures
        r@ == word_set(),
{
    let r = vec![83u8, 69, 84];
    assert(r@ =~= word_set());
    r
}

fn word_del_exec() -> (r: Vec<u8>)
    ensures
        r@ == word_del(),
{
    let r = vec![68u8, 69, 76];
    assert(r@ =~= word_del());
    r
}

fn word_publish_exec() -> (r: Vec<u8>)
    ensures
        r@ == word_publish(),
{
    let r = vec![80u8, 85, 66, 76, 73, 83, 72];
    assert(r@ =~= word_publish());
    r
}

fn word_subscribe_exec() -> (r: Vec<u8>)
    ensures
        r@ == word_subscribe(),
{
    let r = vec![83u8, 85, 66, 83, 67, 82, 73, 66, 69];
    assert(r@ =~= word_subscribe());
    r
}

fn word_ex_exec() -> (r: Vec<u8>)
    ensures
        r@ == word_ex(),
{
    let r = vec![69u8, 88];
    assert(r@ =~= word_ex());
    r
}

fn command_from_words_exec(verb: &Vec<u8>, mut args: Vec<Vec<u8>>) -> (r: Result<Command, CommandError>)
    ensures
        match r {
            Ok(c) => command_from_words(verb@, bytes_view(args@)) == Ok::<CommandV, CommandError>(c@),
            Err(e) => command_from_words(verb@, bytes_view(args@)) == Err::<CommandV, CommandError>(e),
        },
{
    let ghost a = bytes_view(args@);
    let n = args.len();
    if is_word_exec(verb.as_slice(), word_ping_exec().as_slice()) {
        if n == 0 {
            Ok(Command::Ping(None))
        } else if n == 1 {
            let m = args.pop().unwrap();
            Ok(Command::Ping(Some(m)))
        } else {
            Err(CommandError::WrongArity)
        }
    } else if is_word_exec(verb.as_slice(), word_get_exec().as_slice()) {
        if n == 1 {
            let k = args.pop().unwrap();
            Ok(Command::Get(k))
        } else {
            Err(CommandError::WrongArity)
        }
    } else if is_word_exec(verb.as_slice(), word_set_exec().as_slice()) {
        if n == 2 {
            let v = args.pop().unwrap();
            let k = args.pop().unwrap();
            Ok(Command::SetKey(k, v, None))
        } else if n == 4 {
            if !is_word_exec(args[2].as_slice(), word_ex_exec().as_slice()) {
                Err(CommandError::Syntax)
            } else {
                let secs = parse_int_exec(args[3].as_slice(), 0, args[3].len());
                assert(args@[3]@.subrange(0, args@[3]@.len() as int) =~= args@[3]@);
                match secs {
                    Some(s) => {
                        if s > 0 {
                            args.pop();
                            args.pop();
                            let v = args.pop().unwrap();
                            let k = args.pop().unwrap();
                            Ok(Command::SetKey(k, v, Some(s as u64)))
                        } else {
                            Err(CommandError::BadExpiry)
                        }
                    },
                    None => Err(CommandError::BadExpiry),
                }
            }
        } else {
            Err(CommandError::WrongArity)
        }
    } else if is_word_exec(verb.as_slice(), word_del_exec().as_slice()) {
        if n == 1 {
            let k = args.pop().unwrap();
            Ok(Command::Del(k))
        } else {
            Err(CommandError::WrongArity)
        }
    } else if is_word_exec(verb.as_slice(), word_publish_exec().as_slice()) {
        if n == 2 {
            let m = args.pop().unwrap();
            let c = args.pop().unwrap();
            Ok(Command::Publish(c, m))
        } else {
            Err(CommandError::WrongArity)
        }
    } else if is_word_exec(verb.as_slice(), word_subscribe_exec().as_slice()) {
        if n >= 1 {
            let r = Command::Subscribe(args);
            assert(r@ == CommandV::Subscribe(a));
            Ok(r)
        } else {
            Err(CommandError::WrongArity)
        }
    } else {
        Err(CommandError::UnknownVerb)
    }
}

impl Command {
    /// Reads a command from a frame: an array of bulk strings whose first
    /// element is the verb, in any case.
    pub fn from(frame: Frame) -> (r: Result<Command, CommandError>)
        ensures
            match r {
                Ok(c) => command_of(frame@) == Ok::<CommandV, CommandError>(c@),
                Err(e) => command_of(frame@) == Err::<CommandV, CommandError>(e),
            },
    {
        let ghost fv = frame@;
        match frame {
            Frame::Array(items) => {
                let ghost iv = fv->Array_0;
                assert(iv.len() == items@.len());
                let mut words: Vec<Vec<u8>> = Vec::new();
                let mut items = items;
                let ghost all = items@;
                let mut i: usize = 0;
                let total = items.len();
                #[verifier::loop_isolation(false)]
                while items.len() > 0
                    invariant
                        i <= all.len(),
                        all.len() == total,
                        fv == FrameV::Array(iv),
                        items@ == all.subrange(i as int, all.len() as int),
                        iv.len() == all.len(),
                        forall|j: int| 0 <= j < all.len() ==> iv[j] == (#[trigger] all[j])@,
                        words@.len() == i,
                        forall|j: int| 0 <= j < i ==> (#[trigger] iv[j]) is Bulk && iv[j]->Bulk_0 == words@[j]@,
                    decreases items@.len(),
                {
                    let item = items.remove(0);
                    assert(item == all[i as int]);
                    assert(items@ =~= all.subrange(i + 1, all.len() as int));
                    match item {
                        Frame::Bulk(b) => {
                            words.push(b);
                        },
                        _ => {
                            assert(!(iv[i as int] is Bulk));
                            assert(bulk_payloads(iv) is None);
                            return Err(CommandError::NotBulk);
                        },
                    }
                    i = i + 1;
                }
                assert(i == all.len());
                let ghost payloads = Seq::new(iv.len(), |j: int| iv[j]->Bulk_0);
                assert(bulk_payloads(iv) == Some(payloads));
                assert(bytes_view(words@) =~= payloads);
                if words.len() == 0 {
                    return Err(CommandError::MissingVerb);
                }
                let verb = words.remove(0);
                assert(bytes_view(words@) =~= payloads.subrange(1, payloads.len() as int));
                command_from_words_exec(&verb, words)
            },
            _ => Err(CommandError::NotArray),
        }
    }
}

pub open spec fn word_pong() -> Seq<u8> {
    seq![80u8, 79, 78, 71]
}

pub open spec fn word_ok() -> Seq<u8> {
    seq![79u8, 75]
}

pub open spec fn word_subscribed() -> Seq<u8> {
    seq![115u8, 117, 98, 115, 99, 114, 105, 98, 101]
}

pub open spec fn word_message() -> Seq<u8> {
    seq![109u8, 101, 115, 115, 97, 103, 101]
}

/// A count as a reply integer, held at the largest one.
pub open spec fn count(n: nat) -> int {
    if n > i64::MAX {
        i64::MAX as int
    } else {
        n as int
    }
}

/// The confirmations of a subscription to each of `chs`, numbered from one.
pub open spec fn confirmations(chs: Seq<Seq<u8>>) -> Seq<FrameV> {
    Seq::new(
        chs.len(),
        |i: int|
            FrameV::Array(
                seq![
                    FrameV::Bulk(word_subscribed()),
                    FrameV::Bulk(chs[i]),
                    FrameV::Integer(count((i + 1) as nat)),
                ],
            ),
    )
}

pub open spec fn add_subscription(subs: Seq<SubV>, c: Seq<u8>, id: u64) -> Seq<SubV> {
    if subs.contains((c, id)) {
        subs
    } else {
        subs.push((c, id))
    }
}

pub open spec fn add_subscriptions(subs: Seq<SubV>, chs: Seq<Seq<u8>>, id: u64) -> Seq<SubV>
    decreases chs.len(),
{
    if chs.len() == 0 {
        subs
    } else {
        add_subscription(add_subscriptions(subs, chs.drop_last(), id), chs.last(), id)
    }
}

/// The frames sent back for a command.
pub open spec fn reply_of(c: CommandV, slots: Seq<SlotV>, subs: Seq<SubV>, now: u64) -> Seq<FrameV> {
    match c {
        CommandV::Ping(None) => seq![FrameV::Simple(word_pong())],
        CommandV::Ping(Some(m)) => seq![FrameV::Bulk(m)],
        CommandV::Get(k) => seq![
            match visible(slots, k, now) {
                Some(v) => FrameV::Bulk(v),
                None => FrameV::Null,
            },
        ],
        CommandV::SetKey(_, _, _) => seq![FrameV::Simple(word_ok())],
        CommandV::Del(k) => seq![
            FrameV::Integer(
                if visible(slots, k, now) is Some {
                    1
                } else {
                    0
                },
            ),
        ],
        CommandV::Publish(ch, _) => seq![FrameV::Integer(count(subs.filter(on_channel(ch)).len()))],
        CommandV::Subscribe(chs) => confirmations(chs),
    }
}

/// The entries after a command.
pub open spec fn slots_after(c: CommandV, slots: Seq<SlotV>, now: u64) -> Seq<SlotV> {
    match c {
        CommandV::SetKey(k, v, None) => stored(slots, k, v, None),
        CommandV::SetKey(k, v, Some(secs)) => stored(slots, k, v, Some(deadline(now, secs))),
        CommandV::Del(k) => slots.filter(key_is_not(k)),
        _ => slots,
    }
}

/// The subscriptions after a command of subscriber `id`.
pub open spec fn subs_after(c: CommandV, subs: Seq<SubV>, id: u64) -> Seq<SubV> {
    match c {
        CommandV::Subscribe(chs) => add_subscriptions(subs, chs, id),
        _ => subs,
    }
}

/// The subscribers that a command has a message delivered to.
pub open spec fn deliveries(c: CommandV, subs: Seq<SubV>) -> Seq<u64> {
    match c {
        CommandV::Publish(ch, _) => subs.filter(on_channel(ch)).map_values(subscriber_of()),
        _ => Seq::empty(),
    }
}

/// The frame that a published message reaches its subscribers as.
pub open spec fn push_of(c: CommandV) -> Option<FrameV> {
    match c {
        CommandV::Publish(ch, m) => Some(
            FrameV::Array(seq![FrameV::Bulk(word_message()), FrameV::Bulk(ch), FrameV::Bulk(m)]),
        ),
        _ => None,
    }
}

/// What running a command gives: the frames to send back, and, for a
/// publish, the frame to push and the subscribers to push it to.
#[derive(Debug, PartialEq, Eq)]
pub struct Outcome {
    pub reply: Vec<Frame>,
    pub push: Option<Frame>,
    pub deliver_to: Vec<u64>,
}

pub open spec fn option_view(o: Option<Frame>) -> Option<FrameV> {
    match o {
        Some(f) => Some(f@),
        None => None,
    }
}

fn count_exec(n: usize) -> (r: i64)
    ensures
        r == count(n as nat),
{
    if n as u64 > i64::MAX as u64 {
        i64::MAX
    } else {
        n as i64
    }
}

fn bytes_from(v: Vec<u8>) -> (r: Frame)
    ensures
        r@ == FrameV::Bulk(v@),
{
    Frame::Bulk(v)
}

fn triple(a: Frame, b: Frame, c: Frame) -> (r: Frame)
    ensures
        r@ == FrameV::Array(seq![a@, b@, c@]),
{
    let ghost (av, bv, cv) = (a@, b@, c@);
    let mut items: Vec<Frame> = Vec::new();
    items.push(a);
    items.push(b);
    items.push(c);
    let r = Frame::Array(items);
    assert(items@[0]@ == av && items@[1]@ == bv && items@[2]@ == cv);
    assert(r@->Array_0 =~= seq![av, bv, cv]);
    r
}

fn subscribed_exec() -> (r: Vec<u8>)
    ensures
        r@ == word_subscribed(),
{
    let r = vec![115u8, 117, 98, 115, 99, 114, 105, 98, 101];
    assert(r@ =~= word_subscribed());
    r
}

fn copy_vec(a: &Vec<u8>) -> (r: Vec<u8>)
    ensures
        r@ == a@,
{
    let r = crate::parse::copy_range(a.as_slice(), 0, a.len());
    assert(a@.subrange(0, a@.len() as int) =~= a@);
    r
}

impl Command {
    /// Runs the command for subscriber `id` against the store at `now`.
    pub fn apply(self, db: &mut Db, now: u64, id: u64) -> (r: Outcome)
        ensures
            frames_view(r.reply@) == reply_of(self@, old(db).slots(), old(db).subscriptions(), now),
            final(db).slots() == slots_after(self@, old(db).slots(), now),
            final(db).subscriptions() == subs_after(self@, old(db).subscriptions(), id),
            r.deliver_to@ == deliveries(self@, old(db).subscriptions()),
            option_view(r.push) == push_of(self@),
    {
        let ghost cv = self@;
        let mut reply: Vec<Frame> = Vec::new();
        let mut push: Option<Frame> = None;
        let mut deliver_to: Vec<u64> = Vec::new();
        match self {
            Command::Ping(None) => {
                let t = vec![80u8, 79, 78, 71];
                assert(t@ =~= word_pong());
                reply.push(Frame::Simple(t));
            },
            Command::Ping(Some(m)) => {
                reply.push(Frame::Bulk(m));
            },
            Command::Get(k) => {
                match db.get(k.as_slice(), now) {
                    Some(v) => reply.push(Frame::Bulk(v)),
                    None => reply.push(Frame::Null),
                }
            },
            Command::SetKey(k, v, e) => {
                let d = match e {
                    None => None,
                    Some(secs) => Some(expiry_deadline(now, secs)),
                };
                db.set(k.as_slice(), v.as_slice(), d);
                let t = vec![79u8, 75];
                assert(t@ =~= word_ok());
                reply.push(Frame::Simple(t));
            },
            Command::Del(k) => {
                let was = db.delete(k.as_slice(), now);
                reply.push(Frame::Integer(if was { 1 } else { 0 }));
            },
            Command::Publish(ch, m) => {
                deliver_to = db.publish(ch.as_slice());
                assert(deliver_to@.len() == old(db).subscriptions().filter(on_channel(ch@)).len());
                reply.push(Frame::Integer(count_exec(deliver_to.len())));
                let w = vec![109u8, 101, 115, 115, 97, 103, 101];
                assert(w@ =~= word_message());
                let f = triple(bytes_from(w), bytes_from(ch), bytes_from(m));
                push = Some(f);
            },
            Command::Subscribe(chs) => {
                let ghost cs = bytes_view(chs@);
                let mut i: usize = 0;
                while i < chs.len()
                    invariant
                        i <= chs@.len(),
                        cs == bytes_view(chs@),
                        db.slots() == old(db).slots(),
                        db.subscriptions() == add_subscriptions(old(db).subscriptions(), cs.subrange(0, i as int), id),
                        frames_view(reply@) == confirmations(cs.subrange(0, i as int)),
                    decreases chs@.len() - i,
                {
                    db.subscribe(chs[i].as_slice(), id);
                    assert(cs.subrange(0, i + 1).drop_last() =~= cs.subrange(0, i as int));
                    let f = triple(
                        bytes_from(subscribed_exec()),
                        bytes_from(copy_vec(&chs[i])),
                        Frame::Integer(count_exec(i + 1)),
                    );
                    let ghost before = frames_view(reply@);
                    reply.push(f);
                    assert(frames_view(reply@) =~= before.push(f@));
                    assert(frames_view(reply@) =~= confirmations(cs.subrange(0, i + 1)));
                    i = i + 1;
                }
                assert(cs.subrange(0, i as int) =~= cs);
            },
        }
        proof {
            assert(frames_view(reply@) =~= reply_of(cv, old(db).slots(), old(db).subscriptions(), now));
        }
        Outcome { reply, push, deliver_to }
    }
}

/// The text of the error frame that tells the client of a bad command.
pub open spec fn error_text(e: CommandError) -> Seq<u8> {
    match e {
        CommandError::NotArray => seq![69u8, 82, 82, 32, 101, 120, 112, 101, 99, 116, 101, 100, 32, 97, 110, 32, 97, 114, 114, 97, 121],
        CommandError::NotBulk => seq![69u8, 82, 82, 32, 101, 120, 112, 101, 99, 116, 101, 100, 32, 98, 117, 108, 107, 32, 115, 116, 114, 105, 110, 103, 115],
        CommandError::MissingVerb => seq![69u8, 82, 82, 32, 109, 105, 115, 115, 105, 110, 103, 32, 99, 111, 109, 109, 97, 110, 100],
        CommandError::UnknownVerb => seq![69u8, 82, 82, 32, 117, 110, 107, 110, 111, 119, 110, 32, 99, 111, 109, 109, 97, 110, 100],
        CommandError::WrongArity => seq![69u8, 82, 82, 32, 119, 114, 111, 110, 103, 32, 110, 117, 109, 98, 101, 114, 32, 111, 102, 32, 97, 114, 103, 117, 109, 101, 110, 116, 115],
        CommandError::BadExpiry => seq![69u8, 82, 82, 32, 105, 110, 118, 97, 108, 105, 100, 32, 101, 120, 112, 105, 114, 101, 32, 116, 105, 109, 101],
        CommandError::Syntax => seq![69u8, 82, 82, 32, 115, 121, 110, 116, 97, 120, 32, 101, 114, 114, 111, 114],
    }
}

impl CommandError {
    /// The error frame sent back for this error.
    pub fn to_frame(&self) -> (r: Frame)
        ensures
            r@ == FrameV::Error(error_text(*self)),
    {
        let t = match self {
            CommandError::NotArray => vec![69u8, 82, 82, 32, 101, 120, 112, 101, 99, 116, 101, 100, 32, 97, 110, 32, 97, 114, 114, 97, 121],
            CommandError::NotBulk => vec![69u8, 82, 82, 32, 101, 120, 112, 101, 99, 116, 101, 100, 32, 98, 117, 108, 107, 32, 115, 116, 114, 105, 110, 103, 115],
            CommandError::MissingVerb => vec![69u8, 82, 82, 32, 109, 105, 115, 115, 105, 110, 103, 32, 99, 111, 109, 109, 97, 110, 100],
            CommandError::UnknownVerb => vec![69u8, 82, 82, 32, 117, 110, 107, 110, 111, 119, 110, 32, 99, 111, 109, 109, 97, 110, 100],
            CommandError::WrongArity => vec![69u8, 82, 82, 32, 119, 114, 111, 110, 103, 32, 110, 117, 109, 98, 101, 114, 32, 111, 102, 32, 97, 114, 103, 117, 109, 101, 110, 116, 115],
            CommandError::BadExpiry => vec![69u8, 82, 82, 32, 105, 110, 118, 97, 108, 105, 100, 32, 101, 120, 112, 105, 114, 101, 32, 116, 105, 109, 101],
            CommandError::Syntax => vec![69u8, 82, 82, 32, 115, 121, 110, 116, 97, 120, 32, 101, 114, 114, 111, 114],
        };
        assert(t@ =~= error_text(*self));
        Frame::Error(t)
    }
}

/// A publish to a channel that nobody listens on is answered with zero and
/// delivers nothing.
pub proof fn lemma_publish_unheard(
    ch: Seq<u8>,
    m: Seq<u8>,
    slots: Seq<SlotV>,
    subs: Seq<SubV>,
    now: u64,
)
    requires
        forall|i: int| 0 <= i < subs.len() ==> (#[trigger] subs[i]).0 != ch,
    ensures
        reply_of(CommandV::Publish(ch, m), slots, subs, now) == seq![FrameV::Integer(0)],
        deliveries(CommandV::Publish(ch, m), subs) == Seq::<u64>::empty(),
        subs.filter(on_channel(ch)) == Seq::<SubV>::empty(),
    decreases subs.len(),
{
    reveal(Seq::filter);
    if subs.len() > 0 {
        lemma_publish_unheard(ch, m, slots, subs.drop_last(), now);
        assert(!on_channel(ch)(subs.last()));
    }
    assert(subs.filter(on_channel(ch)) =~= Seq::<SubV>::empty());
    assert(subs.filter(on_channel(ch)).map_values(subscriber_of()) =~= Seq::<u64>::empty());
}

/// `SET k v EX secs` then `GET k` gives `v` at once, and nothing from the
/// deadline on, with no `DEL` between.
pub proof fn lemma_set_ex_then_get(
    k: Seq<u8>,
    v: Seq<u8>,
    secs: u64,
    slots: Seq<SlotV>,
    subs: Seq<SubV>,
    now: u64,
    later: u64,
)
    requires
        secs > 0,
        now + secs * 1000 <= u64::MAX,
    ensures
        ({
            let after = slots_after(CommandV::SetKey(k, v, Some(secs)), slots, now);
            &&& reply_of(CommandV::Get(k), after, subs, now) == seq![FrameV::Bulk(v)]
            &&& later >= deadline(now, secs) ==> reply_of(CommandV::Get(k), after, subs, later)
                == seq![FrameV::Null]
        }),
{
    lemma_lookup_stored(slots, k, v, Some(deadline(now, secs)), k);
}

/// `SET k v`, `GET k`, `DEL k`, `GET k` answer `OK`, `v`, `1` and null, on
/// any store and at any time.
pub proof fn lemma_set_get_del(
    k: Seq<u8>,
    v: Seq<u8>,
    slots: Seq<SlotV>,
    subs: Seq<SubV>,
    now: u64,
)
    ensures
        ({
            let s1 = slots_after(CommandV::SetKey(k, v, None), slots, now);
            let s2 = slots_after(CommandV::Get(k), s1, now);
            let s3 = slots_after(CommandV::Del(k), s2, now);
            &&& reply_of(CommandV::SetKey(k, v, None), slots, subs, now) == seq![
                FrameV::Simple(word_ok()),
            ]
            &&& reply_of(CommandV::Get(k), s1, subs, now) == seq![FrameV::Bulk(v)]
            &&& reply_of(CommandV::Del(k), s2, subs, now) == seq![FrameV::Integer(1)]
            &&& reply_of(CommandV::Get(k), s3, subs, now) == seq![FrameV::Null]
        }),
{
    lemma_lookup_stored(slots, k, v, None, k);
    let s1 = stored(slots, k, v, None);
    lemma_deleted(s1, k, k, now);
}

} // verus!
