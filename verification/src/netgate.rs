//! The gateway daemon: DNS records and proxy rules.

use crate::addr::{IpAddr, Ipv4Addr, SocketAddr};
use crate::control;
use crate::control::{
    read_request, unknown_tag_reply, ControlOp, ControlReply, Op, Reply, Request, Verdict,
};
use crate::table;
use crate::table::Table;
use crate::text::{same_text, utf8_text};
use crate::wire;
use crate::wire::Wire;
use vstd::prelude::*;

verus! {

/// Where DNS is served, unless configured.
pub fn default_dns_addr() -> (r: SocketAddr)
    ensures
        r == (SocketAddr { ip: IpAddr::V4(Ipv4Addr { bits: 0 }), port: 5353 }),
{
    SocketAddr { ip: IpAddr::V4(Ipv4Addr { bits: 0 }), port: 5353 }
}

/// The domain of the cluster, unless configured.
pub fn default_domain() -> (r: String)
    ensures
        r@ == "cluster.internal"@,
{
    "cluster.internal".to_owned()
}

/// An address record.
#[derive(Debug, Clone)]
pub struct DnsRecord {
    pub name: String,
    pub ttl: u32,
    pub addr: IpAddr,
}

/// The mathematical form of a [`DnsRecord`].
#[verifier::ext_equal]
pub struct Record {
    pub name: Seq<char>,
    pub ttl: u32,
    pub addr: IpAddr,
}

/// A rule of the TCP proxy: connections to `listen` go to `target`.
#[derive(Debug)]
pub struct ProxyRule {
    pub id: String,
    pub listen: SocketAddr,
    pub target: SocketAddr,
}

/// The mathematical form of a [`ProxyRule`].
#[verifier::ext_equal]
pub struct Rule {
    pub id: Seq<char>,
    pub listen: SocketAddr,
    pub target: SocketAddr,
}

impl DeepView for DnsRecord {
    type V = Record;

    open spec fn deep_view(&self) -> Record {
        Record { name: self.name@, ttl: self.ttl, addr: self.addr }
    }
}

impl DeepView for ProxyRule {
    type V = Rule;

    open spec fn deep_view(&self) -> Rule {
        Rule { id: self.id@, listen: self.listen, target: self.target }
    }
}

impl Clone for ProxyRule {
    fn clone(&self) -> (r: ProxyRule)
        ensures
            r.deep_view() == self.deep_view(),
    {
        ProxyRule { id: self.id.clone(), listen: self.listen, target: self.target }
    }
}

type RecordFields = (String, (u32, IpAddr));

impl Wire for DnsRecord {
    open spec fn wire(v: Record) -> Seq<u8> {
        <RecordFields as Wire>::wire((v.name, (v.ttl, v.addr)))
    }

    open spec fn parse(b: Seq<u8>) -> Result<(Record, Seq<u8>), Seq<char>> {
        match <RecordFields as Wire>::parse(b) {
            Err(text) => Err(text),
            Ok(((name, (ttl, addr)), rest)) => Ok((Record { name, ttl, addr }, rest)),
        }
    }

    open spec fn fits(v: Record) -> bool {
        <String as Wire>::fits(v.name)
    }

    open spec fn encodable(v: Record) -> bool {
        true
    }

    proof fn round_trip(v: Record, rest: Seq<u8>) {
        <RecordFields as Wire>::round_trip((v.name, (v.ttl, v.addr)), rest);
    }

    fn is_encodable(&self) -> (r: bool) {
        true
    }

    fn encode(&self, out: &mut Vec<u8>) {
        self.name.encode(out);
        self.ttl.encode(out);
        self.addr.encode(out);
        assert(out@ =~= old(out)@ + Self::wire(self.deep_view()));
    }

    fn decode(b: &[u8]) -> (r: Result<(DnsRecord, &[u8]), String>) {
        match <RecordFields as Wire>::decode(b) {
            Err(text) => Err(text),
            Ok(((name, (ttl, addr)), rest)) => Ok((DnsRecord { name, ttl, addr }, rest)),
        }
    }
}

type RuleFields = (String, (SocketAddr, SocketAddr));

impl Wire for ProxyRule {
    open spec fn wire(v: Rule) -> Seq<u8> {
        <RuleFields as Wire>::wire((v.id, (v.listen, v.target)))
    }

    open spec fn parse(b: Seq<u8>) -> Result<(Rule, Seq<u8>), Seq<char>> {
        match <RuleFields as Wire>::parse(b) {
            Err(text) => Err(text),
            Ok(((id, (listen, target)), rest)) => Ok((Rule { id, listen, target }, rest)),
        }
    }

    open spec fn fits(v: Rule) -> bool {
        <String as Wire>::fits(v.id)
    }

    open spec fn encodable(v: Rule) -> bool {
        true
    }

    proof fn round_trip(v: Rule, rest: Seq<u8>) {
        <RuleFields as Wire>::round_trip((v.id, (v.listen, v.target)), rest);
    }

    fn is_encodable(&self) -> (r: bool) {
        true
    }

    fn encode(&self, out: &mut Vec<u8>) {
        self.id.encode(out);
        self.listen.encode(out);
        self.target.encode(out);
        assert(out@ =~= old(out)@ + Self::wire(self.deep_view()));
    }

    fn decode(b: &[u8]) -> (r: Result<(ProxyRule, &[u8]), String>) {
        match <RuleFields as Wire>::decode(b) {
            Err(text) => Err(text),
            Ok(((id, (listen, target)), rest)) => Ok((ProxyRule { id, listen, target }, rest)),
        }
    }
}

/// What the gateway does with a request.
#[derive(Debug)]
pub enum GateAction {
    /// Answer this.
    Reply(ControlReply),
    /// Exit without an answer.
    Exit,
    /// Start forwarding by the rule, then answer that it is done.
    Forward(ProxyRule),
}

/// The mathematical form of a [`GateAction`].
#[verifier::ext_equal]
pub enum GateStep {
    Reply(Reply),
    Exit,
    Forward(Rule),
}

impl DeepView for GateAction {
    type V = GateStep;

    open spec fn deep_view(&self) -> GateStep {
        match self {
            GateAction::Reply(reply) => GateStep::Reply(reply.deep_view()),
            GateAction::Exit => GateStep::Exit,
            GateAction::Forward(rule) => GateStep::Forward(rule.deep_view()),
        }
    }
}

/// The records after a name was deleted. Bytes that are no text delete nothing.
pub open spec fn after_delete(
    records: Seq<(Seq<char>, Record)>,
    name: Seq<u8>,
) -> Seq<(Seq<char>, Record)> {
    if vstd::utf8::valid_utf8(name) {
        table::without(records, vstd::utf8::decode_utf8(name))
    } else {
        records
    }
}

/// Records and rules after a request, and what is done about it.
pub open spec fn after_gate_request(
    records: Seq<(Seq<char>, Record)>,
    rules: Seq<Rule>,
    payload: Seq<u8>,
) -> (Seq<(Seq<char>, Record)>, Seq<Rule>, GateStep) {
    match control::verdict(payload) {
        Verdict::Reply(reply) => (records, rules, GateStep::Reply(reply)),
        Verdict::Exit => (records, rules, GateStep::Exit),
        Verdict::Custom { tag, payload } => if tag == "dns.upsert"@ {
            match wire::front::<DnsRecord>(payload) {
                Ok(rec) => (
                    table::put(records, rec.name, rec),
                    rules,
                    GateStep::Reply(Reply::Done),
                ),
                Err(message) => (records, rules, GateStep::Reply(Reply::Error { message })),
            }
        } else if tag == "dns.delete"@ {
            (after_delete(records, payload), rules, GateStep::Reply(Reply::Done))
        } else if tag == "proxy.add"@ {
            match wire::front::<ProxyRule>(payload) {
                Ok(rule) => (records, rules.push(rule), GateStep::Forward(rule)),
                Err(message) => (records, rules, GateStep::Reply(Reply::Error { message })),
            }
        } else {
            (records, rules, GateStep::Reply(control::unknown_tag(tag)))
        },
    }
}

/// Carries out a request.
pub fn gate_request(
    records: &mut Table<String, DnsRecord>,
    rules: &mut Vec<ProxyRule>,
    payload: &[u8],
) -> (r: GateAction)
    ensures
        (final(records).deep_view(), final(rules).deep_view(), r.deep_view())
            == after_gate_request(old(records).deep_view(), old(rules).deep_view(), payload@),
{
    match read_request(payload) {
        Request::Reply(reply) => GateAction::Reply(reply),
        Request::Exit => GateAction::Exit,
        Request::Custom { tag, payload } => {
            if same_text(tag.as_str(), "dns.upsert") {
                match wire::from_slice::<DnsRecord>(payload.as_slice()) {
                    Ok(rec) => {
                        let name = rec.name.clone();
                        records.insert(name, rec);
                        GateAction::Reply(ControlReply::Done)
                    },
                    Err(message) => GateAction::Reply(ControlReply::Error { message }),
                }
            } else if same_text(tag.as_str(), "dns.delete") {
                if let Some(name) = utf8_text(payload.as_slice()) {
                    records.remove(&name);
                }
                GateAction::Reply(ControlReply::Done)
            } else if same_text(tag.as_str(), "proxy.add") {
                match wire::from_slice::<ProxyRule>(payload.as_slice()) {
                    Ok(rule) => {
                        let ghost before = rules.deep_view();
                        let copy = rule.clone();
                        rules.push(rule);
                        assert(rules.deep_view() =~= before.push(copy.deep_view()));
                        GateAction::Forward(copy)
                    },
                    Err(message) => GateAction::Reply(ControlReply::Error { message }),
                }
            } else {
                GateAction::Reply(unknown_tag_reply(tag.as_str()))
            }
        },
    }
}

/// The request that stores a record.
pub open spec fn upsert_op(rec: Record) -> Op {
    Op::Custom { tag: "dns.upsert"@, payload: DnsRecord::wire(rec) }
}

/// The request that deletes a name.
pub open spec fn delete_op(name: Seq<char>) -> Op {
    Op::Custom { tag: "dns.delete"@, payload: vstd::utf8::encode_utf8(name) }
}

/// A record that was stored is found under its name, and no other name is
/// affected.
pub proof fn upsert_is_found(
    records: Seq<(Seq<char>, Record)>,
    rules: Seq<Rule>,
    rec: Record,
    other: Seq<char>,
)
    requires
        table::distinct(records),
        DnsRecord::fits(rec),
        ControlOp::fits(upsert_op(rec)),
    ensures
        ({
            let (after, same_rules, step) = after_gate_request(
                records,
                rules,
                ControlOp::wire(upsert_op(rec)),
            );
            &&& step == GateStep::Reply(Reply::Done)
            &&& same_rules == rules
            &&& table::get(after, rec.name) == Some(rec)
            &&& other != rec.name ==> table::get(after, other) == table::get(records, other)
        }),
{
    control::custom_request_arrives("dns.upsert"@, DnsRecord::wire(rec));
    wire::lemma_front_of_wire::<DnsRecord>(rec, seq![]);
    table::put_then_get(records, rec.name, rec, other);
}

/// A name that was deleted is not found, and no other name is affected.
pub proof fn delete_is_gone(
    records: Seq<(Seq<char>, Record)>,
    rules: Seq<Rule>,
    name: Seq<char>,
    other: Seq<char>,
)
    requires
        table::distinct(records),
        ControlOp::fits(delete_op(name)),
    ensures
        ({
            let (after, same_rules, step) = after_gate_request(
                records,
                rules,
                ControlOp::wire(delete_op(name)),
            );
            &&& step == GateStep::Reply(Reply::Done)
            &&& same_rules == rules
            &&& table::get(after, name) is None
            &&& other != name ==> table::get(after, other) == table::get(records, other)
        }),
{
    control::custom_request_arrives("dns.delete"@, vstd::utf8::encode_utf8(name));
    reveal_strlit("dns.delete");
    reveal_strlit("dns.upsert");
    assert("dns.delete"@[4] != "dns.upsert"@[4]);
    vstd::utf8::encode_utf8_valid_utf8(name);
    vstd::utf8::encode_utf8_decode_utf8(name);
    table::without_then_get(records, name, other);
}

/// The request that adds a rule.
pub open spec fn add_op(rule: Rule) -> Op {
    Op::Custom { tag: "proxy.add"@, payload: ProxyRule::wire(rule) }
}

proof fn lemma_tags_differ()
    ensures
        "dns.upsert"@ != "dns.delete"@,
        "dns.upsert"@ != "proxy.add"@,
        "dns.delete"@ != "proxy.add"@,
{
    reveal_strlit("dns.upsert");
    reveal_strlit("dns.delete");
    reveal_strlit("proxy.add");
    assert("dns.upsert"@[4] == 'u');
    assert("dns.delete"@[4] == 'd');
    assert("proxy.add"@[0] == 'p');
    assert("dns.upsert"@[0] == 'd');
    assert("dns.delete"@[0] == 'd');
}

/// A rule that is added is stored behind the others, whatever they are, and
/// forwarding by exactly that rule starts; the records stay.
pub proof fn added_rule_forwards(
    records: Seq<(Seq<char>, Record)>,
    rules: Seq<Rule>,
    rule: Rule,
)
    requires
        ProxyRule::fits(rule),
        ControlOp::fits(add_op(rule)),
    ensures
        ({
            let (same_records, after, step) = after_gate_request(
                records,
                rules,
                ControlOp::wire(add_op(rule)),
            );
            &&& step == GateStep::Forward(rule)
            &&& same_records == records
            &&& after.len() == rules.len() + 1
            &&& forall|i: int| 0 <= i < rules.len() ==> #[trigger] after[i] == rules[i]
            &&& after.last() == rule
        }),
{
    control::custom_request_arrives("proxy.add"@, ProxyRule::wire(rule));
    wire::lemma_front_of_wire::<ProxyRule>(rule, seq![]);
    lemma_tags_differ();
}

/// A record or a rule that cannot be read is refused with the reason, and a
/// command that the gateway does not have is refused as unknown; bytes that are
/// no text delete nothing. In all these cases nothing changes, nor does it by
/// any request that is not the gateway's own.
pub proof fn other_requests_change_nothing(
    records: Seq<(Seq<char>, Record)>,
    rules: Seq<Rule>,
    tag: Seq<char>,
    inner: Seq<u8>,
    rest: Seq<u8>,
    unread: Seq<u8>,
)
    requires
        ControlOp::fits((Op::Custom { tag, payload: inner })),
    ensures
        ({
            let (r, l, step) = after_gate_request(
                records,
                rules,
                ControlOp::wire((Op::Custom { tag, payload: inner })),
            );
            &&& tag == "dns.upsert"@ ==> (wire::front::<DnsRecord>(inner) matches Err(message)
                ==> r == records && l == rules && step == GateStep::Reply(Reply::Error { message }))
            &&& tag == "proxy.add"@ ==> (wire::front::<ProxyRule>(inner) matches Err(message)
                ==> r == records && l == rules && step == GateStep::Reply(Reply::Error { message }))
            &&& tag == "dns.delete"@ && !vstd::utf8::valid_utf8(inner) ==> r == records && l
                == rules && step == GateStep::Reply(Reply::Done)
            &&& tag != "dns.upsert"@ && tag != "dns.delete"@ && tag != "proxy.add"@ ==> r
                == records && l == rules && step == GateStep::Reply(
                Reply::Error { message: "unknown tag: "@ + tag },
            )
        }),
        after_gate_request(records, rules, ControlOp::wire(Op::Ping) + rest) == (
            records,
            rules,
            GateStep::Reply(Reply::Done),
        ),
        after_gate_request(records, rules, ControlOp::wire(Op::Shutdown) + rest) == (
            records,
            rules,
            GateStep::Exit,
        ),
        after_gate_request(records, rules, ControlOp::wire(Op::GetNodes) + rest) == (
            records,
            rules,
            GateStep::Reply(Reply::Error { message: "unsupported op"@ }),
        ),
        wire::front::<ControlOp>(unread) matches Err(message) ==> after_gate_request(
            records,
            rules,
            unread,
        ) == (records, rules, GateStep::Reply(Reply::Error { message })),
{
    control::custom_request_arrives(tag, inner);
    control::plain_requests(unread, rest);
    lemma_tags_differ();
}

/// A record is sent as its name, its time to live and its address, a rule as its
/// name, the address that is listened on and the one that is forwarded to.
pub proof fn records_and_rules_layout(rec: Record, rule: Rule)
    ensures
        DnsRecord::wire(rec) == <String as Wire>::wire(rec.name) + wire::varint_bytes(
            rec.ttl as nat,
        ) + <IpAddr as Wire>::wire(rec.addr),
        ProxyRule::wire(rule) == <String as Wire>::wire(rule.id) + <SocketAddr as Wire>::wire(
            rule.listen,
        ) + <SocketAddr as Wire>::wire(rule.target),
{
    let a = <String as Wire>::wire(rec.name);
    let b = wire::varint_bytes(rec.ttl as nat);
    let c = <IpAddr as Wire>::wire(rec.addr);
    assert(a + (b + c) =~= a + b + c);
    let a = <String as Wire>::wire(rule.id);
    let b = <SocketAddr as Wire>::wire(rule.listen);
    let c = <SocketAddr as Wire>::wire(rule.target);
    assert(a + (b + c) =~= a + b + c);
}

/// Bytes behind a record do not count.
pub proof fn bytes_behind_record(
    records: Seq<(Seq<char>, Record)>,
    rules: Seq<Rule>,
    rec: Record,
    rest: Seq<u8>,
)
    requires
        DnsRecord::fits(rec),
        ControlOp::fits(upsert_op(rec)),
        ControlOp::fits(
            (Op::Custom { tag: "dns.upsert"@, payload: DnsRecord::wire(rec) + rest }),
        ),
    ensures
        after_gate_request(
            records,
            rules,
            ControlOp::wire(
                (Op::Custom { tag: "dns.upsert"@, payload: DnsRecord::wire(rec) + rest }),
            ),
        ) == after_gate_request(records, rules, ControlOp::wire(upsert_op(rec))),
{
    control::custom_request_arrives("dns.upsert"@, DnsRecord::wire(rec));
    control::custom_request_arrives("dns.upsert"@, DnsRecord::wire(rec) + rest);
    wire::lemma_front_of_wire::<DnsRecord>(rec, rest);
}

/// Bytes behind a rule do not count.
pub proof fn bytes_behind_rule(
    records: Seq<(Seq<char>, Record)>,
    rules: Seq<Rule>,
    rule: Rule,
    rest: Seq<u8>,
)
    requires
        ProxyRule::fits(rule),
        ControlOp::fits(add_op(rule)),
        ControlOp::fits((Op::Custom { tag: "proxy.add"@, payload: ProxyRule::wire(rule) + rest })),
    ensures
        after_gate_request(
            records,
            rules,
            ControlOp::wire(
                (Op::Custom { tag: "proxy.add"@, payload: ProxyRule::wire(rule) + rest }),
            ),
        ) == after_gate_request(records, rules, ControlOp::wire(add_op(rule))),
{
    control::custom_request_arrives("proxy.add"@, ProxyRule::wire(rule));
    control::custom_request_arrives("proxy.add"@, ProxyRule::wire(rule) + rest);
    wire::lemma_front_of_wire::<ProxyRule>(rule, rest);
    lemma_tags_differ();
}

} // verus!
