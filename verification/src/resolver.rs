//! The decisions of recursive resolution: which servers to ask first,
//! what an upstream reply means, and which queries are answered locally.
//! The network itself stays outside; these functions map decoded messages
//! and cache state to the next step.

use vstd::prelude::*;

use crate::dns_cache::{clock_second, get_post, live, DnsCache};
use crate::dns_packet::{
    Answer, AnswerV, DnsPacket, DnsPacketV, Header, Question, QueryType, Record, RecordV,
    ResponseCode, QUERY_RESPONSE, RECURSION_AVAILABLE, RECURSION_DESIRED,
};
use crate::text::{spec_ends_with, split_name, str_ends_with};

verus! {

/// The A-record addresses of a section, in order.
pub open spec fn spec_answer_ipv4s(s: Seq<AnswerV>) -> Seq<u32>
    decreases s.len(),
{
    if s.len() == 0 {
        Seq::empty()
    } else {
        (match s[0].record {
            RecordV::A(ip) => seq![ip],
            _ => Seq::empty(),
        }) + spec_answer_ipv4s(s.drop_first())
    }
}

/// The A-record addresses of a section with their owner names, in order.
pub open spec fn spec_additional_pairs(s: Seq<AnswerV>) -> Seq<(u32, Seq<char>)>
    decreases s.len(),
{
    if s.len() == 0 {
        Seq::empty()
    } else {
        (match s[0].record {
            RecordV::A(ip) => seq![(ip, s[0].name)],
            _ => Seq::empty(),
        }) + spec_additional_pairs(s.drop_first())
    }
}

/// The `(nameserver host, zone)` pairs of an authority section whose
/// zone is a suffix of the queried name, in order.
pub open spec fn spec_unresolved_ns(s: Seq<AnswerV>, qname: Seq<char>) -> Seq<
    (Seq<char>, Seq<char>),
>
    decreases s.len(),
{
    if s.len() == 0 {
        Seq::empty()
    } else {
        (match s[0].record {
            RecordV::NS(server) => if spec_ends_with(qname, s[0].name) {
                seq![(server, s[0].name)]
            } else {
                Seq::empty()
            },
            _ => Seq::empty(),
        }) + spec_unresolved_ns(s.drop_first(), qname)
    }
}

/// The glue addresses of one nameserver host: A records of the
/// additional section owned by that host, in order.
pub open spec fn spec_glue_ips(adds: Seq<AnswerV>, server: Seq<char>) -> Seq<u32>
    decreases adds.len(),
{
    if adds.len() == 0 {
        Seq::empty()
    } else {
        (match adds[0].record {
            RecordV::A(ip) => if adds[0].name == server {
                seq![ip]
            } else {
                Seq::empty()
            },
            _ => Seq::empty(),
        }) + spec_glue_ips(adds.drop_first(), server)
    }
}

/// All glue addresses of a referral: for each matching nameserver of the
/// authority section, in order, its addresses from the additional
/// section.
pub open spec fn spec_resolved_ns(
    auths: Seq<AnswerV>,
    adds: Seq<AnswerV>,
    qname: Seq<char>,
) -> Seq<u32>
    decreases auths.len(),
{
    if auths.len() == 0 {
        Seq::empty()
    } else {
        (match auths[0].record {
            RecordV::NS(server) => if spec_ends_with(qname, auths[0].name) {
                spec_glue_ips(adds, server)
            } else {
                Seq::empty()
            },
            _ => Seq::empty(),
        }) + spec_resolved_ns(auths.drop_first(), adds, qname)
    }
}

/// The records of a section whose owner name is a suffix of the queried
/// name, in order.
pub open spec fn spec_matching_answers(s: Seq<AnswerV>, qname: Seq<char>) -> Seq<AnswerV>
    decreases s.len(),
{
    if s.len() == 0 {
        Seq::empty()
    } else {
        (if spec_ends_with(qname, s[0].name) {
            seq![s[0]]
        } else {
            Seq::empty()
        }) + spec_matching_answers(s.drop_first(), qname)
    }
}

pub proof fn lemma_answer_ipv4s_concat(a: Seq<AnswerV>, b: Seq<AnswerV>)
    ensures
        spec_answer_ipv4s(a + b) == spec_answer_ipv4s(a) + spec_answer_ipv4s(b),
    decreases a.len(),
{
    if a.len() == 0 {
        assert(a + b =~= b);
        assert(spec_answer_ipv4s(a) + spec_answer_ipv4s(b) =~= spec_answer_ipv4s(b));
    } else {
        assert((a + b).drop_first() =~= a.drop_first() + b);
        lemma_answer_ipv4s_concat(a.drop_first(), b);
        assert((a + b)[0] == a[0]);
        assert(spec_answer_ipv4s(a + b) =~= spec_answer_ipv4s(a) + spec_answer_ipv4s(b));
    }
}

pub proof fn lemma_additional_pairs_concat(a: Seq<AnswerV>, b: Seq<AnswerV>)
    ensures
        spec_additional_pairs(a + b) == spec_additional_pairs(a) + spec_additional_pairs(b),
    decreases a.len(),
{
    if a.len() == 0 {
        assert(a + b =~= b);
        assert(spec_additional_pairs(a) + spec_additional_pairs(b) =~= spec_additional_pairs(b));
    } else {
        assert((a + b).drop_first() =~= a.drop_first() + b);
        lemma_additional_pairs_concat(a.drop_first(), b);
        assert((a + b)[0] == a[0]);
        assert(spec_additional_pairs(a + b) =~= spec_additional_pairs(a) + spec_additional_pairs(
            b,
        ));
    }
}

pub proof fn lemma_unresolved_ns_concat(a: Seq<AnswerV>, b: Seq<AnswerV>, qname: Seq<char>)
    ensures
        spec_unresolved_ns(a + b, qname) == spec_unresolved_ns(a, qname) + spec_unresolved_ns(
            b,
            qname,
        ),
    decreases a.len(),
{
    if a.len() == 0 {
        assert(a + b =~= b);
        assert(spec_unresolved_ns(a, qname) + spec_unresolved_ns(b, qname) =~= spec_unresolved_ns(
            b,
            qname,
        ));
    } else {
        assert((a + b).drop_first() =~= a.drop_first() + b);
        lemma_unresolved_ns_concat(a.drop_first(), b, qname);
        assert((a + b)[0] == a[0]);
        assert(spec_unresolved_ns(a + b, qname) =~= spec_unresolved_ns(a, qname)
            + spec_unresolved_ns(b, qname));
    }
}

pub proof fn lemma_glue_ips_concat(a: Seq<AnswerV>, b: Seq<AnswerV>, server: Seq<char>)
    ensures
        spec_glue_ips(a + b, server) == spec_glue_ips(a, server) + spec_glue_ips(b, server),
    decreases a.len(),
{
    if a.len() == 0 {
        assert(a + b =~= b);
        assert(spec_glue_ips(a, server) + spec_glue_ips(b, server) =~= spec_glue_ips(b, server));
    } else {
        assert((a + b).drop_first() =~= a.drop_first() + b);
        lemma_glue_ips_concat(a.drop_first(), b, server);
        assert((a + b)[0] == a[0]);
        assert(spec_glue_ips(a + b, server) =~= spec_glue_ips(a, server) + spec_glue_ips(
            b,
            server,
        ));
    }
}

pub proof fn lemma_resolved_ns_concat(
    a: Seq<AnswerV>,
    b: Seq<AnswerV>,
    adds: Seq<AnswerV>,
    qname: Seq<char>,
)
    ensures
        spec_resolved_ns(a + b, adds, qname) == spec_resolved_ns(a, adds, qname)
            + spec_resolved_ns(b, adds, qname),
    decreases a.len(),
{
    if a.len() == 0 {
        assert(a + b =~= b);
        assert(spec_resolved_ns(a, adds, qname) + spec_resolved_ns(b, adds, qname) =~=
            spec_resolved_ns(b, adds, qname));
    } else {
        assert((a + b).drop_first() =~= a.drop_first() + b);
        lemma_resolved_ns_concat(a.drop_first(), b, adds, qname);
        assert((a + b)[0] == a[0]);
        assert(spec_resolved_ns(a + b, adds, qname) =~= spec_resolved_ns(a, adds, qname)
            + spec_resolved_ns(b, adds, qname));
    }
}

pub proof fn lemma_matching_answers_concat(a: Seq<AnswerV>, b: Seq<AnswerV>, qname: Seq<char>)
    ensures
        spec_matching_answers(a + b, qname) == spec_matching_answers(a, qname)
            + spec_matching_answers(b, qname),
    decreases a.len(),
{
    if a.len() == 0 {
        assert(a + b =~= b);
        assert(spec_matching_answers(a, qname) + spec_matching_answers(b, qname) =~=
            spec_matching_answers(b, qname));
    } else {
        assert((a + b).drop_first() =~= a.drop_first() + b);
        lemma_matching_answers_concat(a.drop_first(), b, qname);
        assert((a + b)[0] == a[0]);
        assert(spec_matching_answers(a + b, qname) =~= spec_matching_answers(a, qname)
            + spec_matching_answers(b, qname));
    }
}

impl DnsPacket {
    /// The addresses of the A records in the answer section.
    pub fn get_ipv4_iterator_answers(&self) -> (r: Vec<u32>)
        ensures
            r@ == spec_answer_ipv4s(self@.answers),
    {
        let ghost views = self@.answers;
        let mut out: Vec<u32> = Vec::new();
        let mut i: usize = 0;
        proof {
            assert(views.take(0) =~= Seq::<AnswerV>::empty());
        }
        while i < self.answers.len()
            invariant
                views == self@.answers,
                i <= self.answers@.len(),
                views.len() == self.answers@.len(),
                out@ == spec_answer_ipv4s(views.take(i as int)),
            decreases self.answers@.len() - i,
        {
            proof {
                reveal_with_fuel(spec_answer_ipv4s, 3);
                assert(views.take(i + 1) =~= views.take(i as int) + seq![views[i as int]]);
                lemma_answer_ipv4s_concat(views.take(i as int), seq![views[i as int]]);
                assert(seq![views[i as int]].drop_first() =~= Seq::<AnswerV>::empty());
                assert(views[i as int] == self.answers@[i as int]@);
            }
            if let Record::A(ip) = &self.answers[i].record {
                out.push(*ip);
                proof {
                    assert(out@ =~= spec_answer_ipv4s(views.take(i + 1)));
                }
            } else {
                proof {
                    assert(out@ =~= spec_answer_ipv4s(views.take(i + 1)));
                }
            }
            i = i + 1;
        }
        proof {
            assert(views.take(self.answers@.len() as int) =~= views);
        }
        out
    }

    /// The addresses of the A records in the additional section, each
    /// with its owner name.
    pub fn get_ipv4_iterator_additional(&self) -> (r: Vec<(u32, String)>)
        ensures
            r@.map_values(|p: (u32, String)| (p.0, p.1@)) == spec_additional_pairs(
                self@.additional,
            ),
    {
        let ghost views = self@.additional;
        let ghost f = |p: (u32, String)| (p.0, p.1@);
        let mut out: Vec<(u32, String)> = Vec::new();
        let mut i: usize = 0;
        proof {
            assert(views.take(0) =~= Seq::<AnswerV>::empty());
            assert(out@.map_values(f) =~= spec_additional_pairs(views.take(0)));
        }
        while i < self.additional.len()
            invariant
                views == self@.additional,
                f == (|p: (u32, String)| (p.0, p.1@)),
                i <= self.additional@.len(),
                views.len() == self.additional@.len(),
                out@.map_values(f) == spec_additional_pairs(views.take(i as int)),
            decreases self.additional@.len() - i,
        {
            proof {
                reveal_with_fuel(spec_additional_pairs, 3);
                assert(views.take(i + 1) =~= views.take(i as int) + seq![views[i as int]]);
                lemma_additional_pairs_concat(views.take(i as int), seq![views[i as int]]);
                assert(seq![views[i as int]].drop_first() =~= Seq::<AnswerV>::empty());
                assert(views[i as int] == self.additional@[i as int]@);
            }
            let ghost pre = out@;
            if let Record::A(ip) = &self.additional[i].record {
                out.push((*ip, self.additional[i].name.clone()));
                proof {
                    assert(out@.map_values(f) =~= pre.map_values(f) + seq![
                        (views[i as int].record->A_0, views[i as int].name),
                    ]);
                    assert(out@.map_values(f) =~= spec_additional_pairs(views.take(i + 1)));
                }
            } else {
                proof {
                    assert(out@.map_values(f) =~= spec_additional_pairs(views.take(i + 1)));
                }
            }
            i = i + 1;
        }
        proof {
            assert(views.take(self.additional@.len() as int) =~= views);
        }
        out
    }

    /// The `(nameserver host, zone)` pairs of the authority section whose
    /// zone is a suffix of `qname`.
    pub fn get_unresolved_ns(&self, qname: &str) -> (r: Vec<(String, String)>)
        ensures
            r@.map_values(|p: (String, String)| (p.0@, p.1@)) == spec_unresolved_ns(
                self@.authorities,
                qname@,
            ),
    {
        let ghost views = self@.authorities;
        let ghost f = |p: (String, String)| (p.0@, p.1@);
        let mut out: Vec<(String, String)> = Vec::new();
        let mut i: usize = 0;
        proof {
            assert(views.take(0) =~= Seq::<AnswerV>::empty());
            assert(out@.map_values(f) =~= spec_unresolved_ns(views.take(0), qname@));
        }
        while i < self.authorities.len()
            invariant
                views == self@.authorities,
                f == (|p: (String, String)| (p.0@, p.1@)),
                i <= self.authorities@.len(),
                views.len() == self.authorities@.len(),
                out@.map_values(f) == spec_unresolved_ns(views.take(i as int), qname@),
            decreases self.authorities@.len() - i,
        {
            proof {
                reveal_with_fuel(spec_unresolved_ns, 3);
                assert(views.take(i + 1) =~= views.take(i as int) + seq![views[i as int]]);
                lemma_unresolved_ns_concat(views.take(i as int), seq![views[i as int]], qname@);
                assert(seq![views[i as int]].drop_first() =~= Seq::<AnswerV>::empty());
                assert(views[i as int] == self.authorities@[i as int]@);
            }
            let ghost pre = out@;
            let mut taken = false;
            if let Record::NS(server) = &self.authorities[i].record {
                if str_ends_with(qname, self.authorities[i].name.as_str()) {
                    out.push((server.clone(), self.authorities[i].name.clone()));
                    taken = true;
                    proof {
                        assert(out@.map_values(f) =~= pre.map_values(f) + seq![
                            (views[i as int].record->NS_0, views[i as int].name),
                        ]);
                        assert(out@.map_values(f) =~= spec_unresolved_ns(
                            views.take(i + 1),
                            qname@,
                        ));
                    }
                }
            }
            if !taken {
                proof {
                    assert(out@.map_values(f) =~= spec_unresolved_ns(views.take(i + 1), qname@));
                }
            }
            i = i + 1;
        }
        proof {
            assert(views.take(self.authorities@.len() as int) =~= views);
        }
        out
    }

    /// The glue addresses of the referral: for each nameserver of the
    /// authority section whose zone covers `qname`, the A records of the
    /// additional section owned by that host.
    pub fn get_resolved_ns(&self, qname: &str) -> (r: Vec<u32>)
        ensures
            r@ == spec_resolved_ns(self@.authorities, self@.additional, qname@),
    {
        let ghost views = self@.authorities;
        let ghost adds = self@.additional;
        let mut out: Vec<u32> = Vec::new();
        let mut i: usize = 0;
        proof {
            assert(views.take(0) =~= Seq::<AnswerV>::empty());
        }
        while i < self.authorities.len()
            invariant
                views == self@.authorities,
                adds == self@.additional,
                i <= self.authorities@.len(),
                views.len() == self.authorities@.len(),
                out@ == spec_resolved_ns(views.take(i as int), adds, qname@),
            decreases self.authorities@.len() - i,
        {
            proof {
                reveal_with_fuel(spec_resolved_ns, 3);
                assert(views.take(i + 1) =~= views.take(i as int) + seq![views[i as int]]);
                lemma_resolved_ns_concat(views.take(i as int), seq![views[i as int]], adds, qname@);
                assert(seq![views[i as int]].drop_first() =~= Seq::<AnswerV>::empty());
                assert(views[i as int] == self.authorities@[i as int]@);
            }
            let ghost pre = out@;
            let mut taken = false;
            if let Record::NS(server) = &self.authorities[i].record {
                if str_ends_with(qname, self.authorities[i].name.as_str()) {
                    let mut glue = self.glue_of(server.as_str());
                    out.append(&mut glue);
                    taken = true;
                    proof {
                        assert(out@ =~= spec_resolved_ns(views.take(i + 1), adds, qname@));
                    }
                }
            }
            if !taken {
                proof {
                    assert(out@ =~= spec_resolved_ns(views.take(i + 1), adds, qname@));
                }
            }
            i = i + 1;
        }
        proof {
            assert(views.take(self.authorities@.len() as int) =~= views);
        }
        out
    }

    /// The glue addresses of one host, from the additional section.
    fn glue_of(&self, server: &str) -> (r: Vec<u32>)
        ensures
            r@ == spec_glue_ips(self@.additional, server@),
    {
        let ghost adds = self@.additional;
        let mut out: Vec<u32> = Vec::new();
        let mut j: usize = 0;
        proof {
            assert(adds.take(0) =~= Seq::<AnswerV>::empty());
        }
        while j < self.additional.len()
            invariant
                adds == self@.additional,
                j <= self.additional@.len(),
                adds.len() == self.additional@.len(),
                out@ == spec_glue_ips(adds.take(j as int), server@),
            decreases self.additional@.len() - j,
        {
            proof {
                reveal_with_fuel(spec_glue_ips, 3);
                assert(adds.take(j + 1) =~= adds.take(j as int) + seq![adds[j as int]]);
                lemma_glue_ips_concat(adds.take(j as int), seq![adds[j as int]], server@);
                assert(seq![adds[j as int]].drop_first() =~= Seq::<AnswerV>::empty());
                assert(adds[j as int] == self.additional@[j as int]@);
            }
            let mut taken = false;
            if let Record::A(ip) = &self.additional[j].record {
                if crate::text::str_eq(self.additional[j].name.as_str(), server) {
                    out.push(*ip);
                    taken = true;
                    proof {
                        assert(out@ =~= spec_glue_ips(adds.take(j + 1), server@));
                    }
                }
            }
            if !taken {
                proof {
                    assert(out@ =~= spec_glue_ips(adds.take(j + 1), server@));
                }
            }
            j = j + 1;
        }
        proof {
            assert(adds.take(self.additional@.len() as int) =~= adds);
        }
        out
    }

    /// Every record of the answer, authority and additional sections, in
    /// that order, whose owner name is a suffix of `qname`.
    pub fn get_all_answers(&self, qname: &str) -> (r: Vec<Answer>)
        ensures
            r@.map_values(|a: Answer| a@) == spec_matching_answers(
                self@.answers + self@.authorities + self@.additional,
                qname@,
            ),
    {
        let mut out: Vec<Answer> = Vec::new();
        self.push_matching(&mut out, 0, qname);
        self.push_matching(&mut out, 1, qname);
        self.push_matching(&mut out, 2, qname);
        proof {
            lemma_matching_answers_concat(self@.answers + self@.authorities, self@.additional,
                qname@);
            lemma_matching_answers_concat(self@.answers, self@.authorities, qname@);
            assert(out@.map_values(|a: Answer| a@) =~= spec_matching_answers(
                self@.answers + self@.authorities + self@.additional,
                qname@,
            ));
        }
        out
    }

    /// Appends the suffix-matching records of one section: the answers
    /// for 0, the authorities for 1, the additional records otherwise.
    fn push_matching(&self, out: &mut Vec<Answer>, section: u8, qname: &str)
        ensures
            final(out)@.map_values(|a: Answer| a@) == old(out)@.map_values(|a: Answer| a@)
                + spec_matching_answers(
                (if section == 0 {
                    self@.answers
                } else if section == 1 {
                    self@.authorities
                } else {
                    self@.additional
                }),
                qname@,
            ),
    {
        let v = if section == 0 {
            &self.answers
        } else if section == 1 {
            &self.authorities
        } else {
            &self.additional
        };
        let ghost views = v@.map_values(|a: Answer| a@);
        let ghost base = out@.map_values(|a: Answer| a@);
        let ghost f = |a: Answer| a@;
        let mut i: usize = 0;
        proof {
            assert(views.take(0) =~= Seq::<AnswerV>::empty());
            assert(base + spec_matching_answers(views.take(0), qname@) =~= base);
        }
        while i < v.len()
            invariant
                views == v@.map_values(|a: Answer| a@),
                f == (|a: Answer| a@),
                i <= v@.len(),
                views.len() == v@.len(),
                out@.map_values(f) == base + spec_matching_answers(views.take(i as int), qname@),
            decreases v@.len() - i,
        {
            proof {
                reveal_with_fuel(spec_matching_answers, 3);
                assert(views.take(i + 1) =~= views.take(i as int) + seq![views[i as int]]);
                lemma_matching_answers_concat(views.take(i as int), seq![views[i as int]], qname@);
                assert(seq![views[i as int]].drop_first() =~= Seq::<AnswerV>::empty());
                assert(views[i as int] == v@[i as int]@);
            }
            let ghost pre = out@;
            if str_ends_with(qname, v[i].name.as_str()) {
                out.push(v[i].duplicate());
                proof {
                    assert(out@.map_values(f) =~= pre.map_values(f) + seq![views[i as int]]);
                    assert(out@.map_values(f) =~= base + spec_matching_answers(
                        views.take(i + 1),
                        qname@,
                    ));
                }
            } else {
                proof {
                    assert(out@.map_values(f) =~= base + spec_matching_answers(
                        views.take(i + 1),
                        qname@,
                    ));
                }
            }
            i = i + 1;
        }
        proof {
            assert(views.take(v@.len() as int) =~= views);
        }
    }
}


/// An IPv4 address from its four dotted-quad bytes.
pub open spec fn spec_ipv4(a: u8, b: u8, c: u8, d: u8) -> u32 {
    ((a as u32) * 0x1000000 + (b as u32) * 0x10000 + (c as u32) * 0x100 + (d as u32)) as u32
}

/// An IPv4 address from its four dotted-quad bytes.
pub fn ipv4(a: u8, b: u8, c: u8, d: u8) -> (r: u32)
    ensures
        r == spec_ipv4(a, b, c, d),
{
    (a as u32) * 0x1000000 + (b as u32) * 0x10000 + (c as u32) * 0x100 + (d as u32)
}

/// The thirteen root servers, tried in this fixed order.
pub open spec fn spec_root_ips() -> Seq<u32> {
    seq![
        spec_ipv4(198, 41, 0, 4),
        spec_ipv4(199, 9, 14, 201),
        spec_ipv4(192, 33, 4, 12),
        spec_ipv4(199, 7, 91, 13),
        spec_ipv4(192, 203, 230, 10),
        spec_ipv4(192, 5, 5, 241),
        spec_ipv4(192, 112, 36, 4),
        spec_ipv4(198, 97, 190, 53),
        spec_ipv4(192, 36, 148, 17),
        spec_ipv4(192, 58, 128, 30),
        spec_ipv4(193, 0, 14, 129),
        spec_ipv4(199, 7, 83, 42),
        spec_ipv4(202, 12, 27, 33),
    ]
}

/// The root hint list: the thirteen well-known root server addresses.
pub fn root_server_ips() -> (r: Vec<u32>)
    ensures
        r@ == spec_root_ips(),
{
    let mut out: Vec<u32> = Vec::new();
    out.push(ipv4(198, 41, 0, 4));
    out.push(ipv4(199, 9, 14, 201));
    out.push(ipv4(192, 33, 4, 12));
    out.push(ipv4(199, 7, 91, 13));
    out.push(ipv4(192, 203, 230, 10));
    out.push(ipv4(192, 5, 5, 241));
    out.push(ipv4(192, 112, 36, 4));
    out.push(ipv4(198, 97, 190, 53));
    out.push(ipv4(192, 36, 148, 17));
    out.push(ipv4(192, 58, 128, 30));
    out.push(ipv4(193, 0, 14, 129));
    out.push(ipv4(199, 7, 83, 42));
    out.push(ipv4(202, 12, 27, 33));
    proof {
        assert(out@ =~= spec_root_ips());
    }
    out
}

/// What an upstream reply calls for.
pub enum LookupStep {
    /// The reply answers the query: cache it and hand it back.
    UseAnswer,
    /// A referral with glue: ask these addresses next.
    FollowGlue(Vec<u32>),
    /// A referral without glue: resolve one of these nameserver hosts,
    /// then ask its addresses.
    QueryNameservers(Vec<String>),
    /// The reply carries neither an answer nor a referral.
    Malformed,
}

/// Whether the reply settles the query: a non-empty answer section under
/// a no-error or name-error code.
pub open spec fn spec_is_answer(p: DnsPacketV) -> bool {
    p.answers.len() > 0 && (p.header.spec_response_code() == ResponseCode::NOERROR
        || p.header.spec_response_code() == ResponseCode::NXDOMAIN)
}

/// The nameserver hosts of the matching referral pairs, in order.
pub open spec fn spec_ns_hosts(s: Seq<AnswerV>, qname: Seq<char>) -> Seq<Seq<char>> {
    spec_unresolved_ns(s, qname).map_values(|p: (Seq<char>, Seq<char>)| p.0)
}

/// Classifies an upstream reply: an answer is used; otherwise a referral
/// with glue gives addresses to follow, a referral without glue gives
/// nameserver hosts to resolve first, and anything else is malformed.  A
/// reply without a question is malformed too.
pub fn next_lookup_step(packet: &DnsPacket) -> (r: LookupStep)
    ensures
        (match r {
            LookupStep::UseAnswer => spec_is_answer(packet@),
            LookupStep::FollowGlue(ips) => {
                &&& !spec_is_answer(packet@)
                &&& packet@.questions.len() > 0
                &&& packet@.additional.len() > 0
                &&& ips@ == spec_resolved_ns(
                    packet@.authorities,
                    packet@.additional,
                    packet@.questions[0].name,
                )
            },
            LookupStep::QueryNameservers(hosts) => {
                &&& !spec_is_answer(packet@)
                &&& packet@.questions.len() > 0
                &&& packet@.additional.len() == 0
                &&& packet@.authorities.len() > 0
                &&& hosts@.map_values(|h: String| h@) == spec_ns_hosts(
                    packet@.authorities,
                    packet@.questions[0].name,
                )
            },
            LookupStep::Malformed => {
                &&& !spec_is_answer(packet@)
                &&& (packet@.questions.len() == 0 || (packet@.additional.len() == 0
                    && packet@.authorities.len() == 0))
            },
        }),
{
    let res_code = packet.header.get_response_code();
    if packet.answers.len() > 0 && (matches!(res_code, ResponseCode::NOERROR) || matches!(
        res_code,
        ResponseCode::NXDOMAIN,
    )) {
        return LookupStep::UseAnswer;
    }
    if packet.questions.len() == 0 {
        return LookupStep::Malformed;
    }
    let qname = &packet.questions[0].name;
    if packet.additional.len() > 0 {
        let ips = packet.get_resolved_ns(qname.as_str());
        proof {
            assert(packet@.questions[0] == packet.questions@[0]@);
        }
        return LookupStep::FollowGlue(ips);
    }
    if packet.authorities.len() > 0 {
        let pairs = packet.get_unresolved_ns(qname.as_str());
        let mut hosts: Vec<String> = Vec::new();
        let ghost pv = spec_unresolved_ns(packet@.authorities, packet@.questions[0].name);
        let ghost fp = |p: (String, String)| (p.0@, p.1@);
        let mut i: usize = 0;
        while i < pairs.len()
            invariant
                pairs@.map_values(fp) == pv,
                fp == (|p: (String, String)| (p.0@, p.1@)),
                i <= pairs@.len(),
                pairs@.len() == pv.len(),
                hosts@.len() == i,
                forall|j: int| 0 <= j < i ==> (#[trigger] hosts@[j])@ == pv[j].0,
            decreases pairs@.len() - i,
        {
            hosts.push(pairs[i].0.clone());
            proof {
                assert(pairs@.map_values(fp)[i as int] == fp(pairs@[i as int]));
            }
            i = i + 1;
        }
        proof {
            assert(packet@.questions[0] == packet.questions@[0]@);
            assert(hosts@.map_values(|h: String| h@) =~= spec_ns_hosts(
                packet@.authorities,
                packet@.questions[0].name,
            ));
        }
        return LookupStep::QueryNameservers(hosts);
    }
    LookupStep::Malformed
}

/// The header of every locally built response: the client's id, the
/// recursion and response bits, recursion marked available, and the
/// given code.
pub open spec fn spec_response_header(id: u16, code: ResponseCode) -> Header {
    Header {
        id,
        flags1: QUERY_RESPONSE | RECURSION_DESIRED,
        flags2: RECURSION_AVAILABLE | code.spec_to_u8(),
        question_count: 0,
        answer_count: 0,
        authoritiy_count: 0,
        additional_count: 0,
    }
}

/// A response carrying nothing but a header with the given code.
pub fn error_response(id: u16, code: ResponseCode) -> (r: DnsPacket)
    ensures
        r@ == (DnsPacketV {
            header: spec_response_header(id, code),
            questions: Seq::empty(),
            answers: Seq::empty(),
            authorities: Seq::empty(),
            additional: Seq::empty(),
        }),
{
    let mut header = Header::new(id, true, true, ResponseCode::NOERROR);
    header.set_recursion_available(true);
    header.set_response_code(code);
    proof {
        let rc = code.spec_to_u8();
        assert((0x80u8 | 0x01u8) == (if true {
            0x80u8
        } else {
            0u8
        }) | (if true {
            0x01u8
        } else {
            0u8
        })) by (bit_vector);
        assert(((2u8 & 0xFFu8) | 0u8) == 2u8) by (bit_vector);
        assert(((0u8 | 0x80u8) & !0x0Fu8) | rc == (0x80u8 | rc)) by (bit_vector)
            requires
                rc <= 9,
        ;
        assert(header == spec_response_header(id, code));
    }
    DnsPacket::new(header)
}

/// The reply sent when every upstream path failed.
pub fn servfail_response(id: u16) -> (r: DnsPacket)
    ensures
        r@ == (DnsPacketV {
            header: spec_response_header(id, ResponseCode::SERVFAIL),
            questions: Seq::empty(),
            answers: Seq::empty(),
            authorities: Seq::empty(),
            additional: Seq::empty(),
        }),
{
    error_response(id, ResponseCode::SERVFAIL)
}

/// Owned copies of a question section.
pub fn copy_questions(v: &Vec<Question>) -> (r: Vec<Question>)
    ensures
        r@.map_values(|q: Question| q@) == v@.map_values(|q: Question| q@),
        r@.len() == v@.len(),
{
    let mut out: Vec<Question> = Vec::new();
    let mut i: usize = 0;
    while i < v.len()
        invariant
            i <= v@.len(),
            out@.len() == i,
            forall|j: int| 0 <= j < i ==> (#[trigger] out@[j])@ == v@[j]@,
        decreases v@.len() - i,
    {
        out.push(v[i].duplicate());
        i = i + 1;
    }
    proof {
        assert(out@.map_values(|q: Question| q@) =~= v@.map_values(|q: Question| q@));
    }
    out
}

/// What answering a client query from local knowledge alone means, at
/// second `now`: a query without a question is refused with `FORMERR`,
/// one for an unsupported type with `NOTIMP` echoing the question, and
/// one the cache can serve gets the cached answers; anything else needs
/// the network and yields nothing.
pub open spec fn local_resolution_post(
    cache: DnsCache,
    query: DnsPacketV,
    now: int,
    r: Option<DnsPacket>,
) -> bool {
    match r {
        Some(resp) => {
            if query.questions.len() == 0 {
                resp@ == (DnsPacketV {
                    header: spec_response_header(query.header.id, ResponseCode::FORMERR),
                    questions: Seq::empty(),
                    answers: Seq::empty(),
                    authorities: Seq::empty(),
                    additional: Seq::empty(),
                })
            } else if query.questions[0].query_type is UNKOWN {
                resp@ == (DnsPacketV {
                    header: Header {
                        question_count: query.questions.len() as u16,
                        ..spec_response_header(query.header.id, ResponseCode::NOTIMP)
                    },
                    questions: query.questions,
                    answers: Seq::empty(),
                    authorities: Seq::empty(),
                    additional: Seq::empty(),
                })
            } else {
                exists|v: Vec<Answer>|
                    {
                        &&& #[trigger] get_post(
                            cache,
                            query.questions[0].name,
                            query.questions[0].query_type,
                            now,
                            Some(v),
                        )
                        &&& v@.len() <= 0xFFFF
                        &&& resp@ == (DnsPacketV {
                            header: Header {
                                question_count: query.questions.len() as u16,
                                answer_count: v@.len() as u16,
                                ..spec_response_header(query.header.id, ResponseCode::NOERROR)
                            },
                            questions: query.questions,
                            answers: v@.map_values(|a: Answer| a@),
                            authorities: Seq::empty(),
                            additional: Seq::empty(),
                        })
                    }
            }
        },
        None => {
            &&& query.questions.len() > 0
            &&& !(query.questions[0].query_type is UNKOWN)
            &&& (get_post(
                cache,
                query.questions[0].name,
                query.questions[0].query_type,
                now,
                None,
            ) || exists|v: Vec<Answer>|
                #[trigger] get_post(
                    cache,
                    query.questions[0].name,
                    query.questions[0].query_type,
                    now,
                    Some(v),
                ) && v@.len() > 0xFFFF)
        },
    }
}

/// Answers a client query from local knowledge alone, at second `now`.
pub fn local_resolution_at(cache: &DnsCache, query: &DnsPacket, now: u64) -> (r: Option<DnsPacket>)
    requires
        cache.wf(),
        query@.questions.len() <= 0xFFFF,
    ensures
        local_resolution_post(*cache, query@, now as int, r),
{
    if query.questions.len() == 0 {
        return Some(error_response(query.header.id, ResponseCode::FORMERR));
    }
    let question = &query.questions[0];
    proof {
        assert(query@.questions[0] == query.questions@[0]@);
    }
    if matches!(question.query_type, QueryType::UNKOWN(_)) {
        let mut response = error_response(query.header.id, ResponseCode::NOTIMP);
        response.set_questions(copy_questions(&query.questions));
        proof {
            assert(response@.questions =~= query@.questions);
        }
        return Some(response);
    }
    match cache.get_at(question.name.as_str(), &question.query_type, now) {
        Some(cached) => {
            if cached.len() > 0xFFFF {
                return None;
            }
            let mut response = error_response(query.header.id, ResponseCode::NOERROR);
            response.set_questions(copy_questions(&query.questions));
            let ghost v = cached;
            response.set_answers(cached);
            proof {
                assert(get_post(
                    *cache,
                    query@.questions[0].name,
                    query@.questions[0].query_type,
                    now as int,
                    Some(v),
                ));
                assert(response@.questions =~= query@.questions);
                assert(response.header == (Header {
                    question_count: query@.questions.len() as u16,
                    answer_count: v@.len() as u16,
                    ..spec_response_header(query@.header.id, ResponseCode::NOERROR)
                }));
                assert(response@.answers == v@.map_values(|a: Answer| a@));
            }
            Some(response)
        },
        None => None,
    }
}

/// Answers a client query from local knowledge alone, by the wall clock.
pub fn local_resolution(cache: &DnsCache, query: &DnsPacket) -> (r: Option<DnsPacket>)
    requires
        cache.wf(),
        query@.questions.len() <= 0xFFFF,
    ensures
        exists|now: int|
            #[trigger] clock_second(now) && local_resolution_post(*cache, query@, now, r),
{
    let now = crate::dns_cache::wall_clock_second();
    let r = local_resolution_at(cache, query, now);
    proof {
        assert(clock_second(now as int));
    }
    r
}


/// A dotted name from labels: the labels joined by `.`.
pub open spec fn join_labels(ls: Seq<Seq<char>>) -> Seq<char>
    decreases ls.len(),
{
    if ls.len() == 0 {
        Seq::empty()
    } else if ls.len() == 1 {
        ls[0]
    } else {
        ls[0] + seq!['.'] + join_labels(ls.drop_first())
    }
}

pub proof fn lemma_join_labels_snoc(ls: Seq<Seq<char>>, x: Seq<char>)
    requires
        ls.len() >= 1,
    ensures
        join_labels(ls.push(x)) == join_labels(ls) + seq!['.'] + x,
    decreases ls.len(),
{
    if ls.len() == 1 {
        assert(ls.push(x)[0] == ls[0]);
        assert(ls.push(x).drop_first() =~= seq![x]);
        assert(join_labels(seq![x]) == x);
        assert(join_labels(ls.push(x)) =~= join_labels(ls) + seq!['.'] + x);
    } else {
        assert(ls.push(x)[0] == ls[0]);
        assert(ls.push(x).drop_first() =~= ls.drop_first().push(x));
        lemma_join_labels_snoc(ls.drop_first(), x);
        assert(join_labels(ls.push(x)) =~= join_labels(ls) + seq!['.'] + x);
    }
}

/// The suffix of a dotted name that starts at its `idx`-th label.
pub open spec fn suffix_at(name: Seq<char>, idx: int) -> Seq<char> {
    join_labels(crate::buffer::name_labels(name).skip(idx))
}

/// The record names `host` as a nameserver.
pub open spec fn ns_record_of(a: AnswerV, host: Seq<char>) -> bool {
    a.record == RecordV::NS(host)
}

/// A live NS record at `zone` names `host` as its nameserver.
pub open spec fn cached_ns_host(c: DnsCache, zone: Seq<char>, host: Seq<char>, now: int) -> bool {
    exists|a: AnswerV|
        #[trigger] live(c, zone, QueryType::NS, now, a) && a.record == RecordV::NS(host)
}

/// A live A record at `host` carries the address `ip`.
pub open spec fn cached_a_ip(c: DnsCache, host: Seq<char>, ip: u32, now: int) -> bool {
    exists|a: AnswerV|
        #[trigger] live(c, host, QueryType::A, now, a) && a.record == RecordV::A(ip)
}

/// The dotted suffix of `labels` that starts at label `from`.
fn join_from(labels: &Vec<String>, from: usize) -> (r: String)
    requires
        from < labels@.len(),
    ensures
        r@ == join_labels(labels@.map_values(|l: String| l@).skip(from as int)),
{
    let ghost views = labels@.map_values(|l: String| l@);
    let n = labels.len();
    let mut acc = labels[from].clone();
    let mut j: usize = from + 1;
    proof {
        assert(views.skip(from as int).subrange(0, 1) =~= seq![views[from as int]]);
        assert(views.subrange(from as int, from + 1) =~= seq![views[from as int]]);
        assert(join_labels(seq![views[from as int]]) == views[from as int]);
        assert(views[from as int] == labels@[from as int]@);
        assert(views.subrange(from as int, from + 1) =~= views.skip(from as int).subrange(0, 1));
    }
    while j < labels.len()
        invariant
            views == labels@.map_values(|l: String| l@),
            from < j <= labels@.len(),
            views.len() == labels@.len(),
            acc@ == join_labels(views.subrange(from as int, j as int)),
        decreases labels@.len() - j,
    {
        acc.append(".");
        acc.append(labels[j].as_str());
        proof {
            let prefix = views.subrange(from as int, j as int);
            assert(views.subrange(from as int, j + 1) =~= prefix.push(views[j as int]));
            lemma_join_labels_snoc(prefix, views[j as int]);
            assert(views[j as int] == labels@[j as int]@);
            reveal_strlit(".");
            assert("."@ =~= seq!['.']);
            assert(acc@ =~= join_labels(views.subrange(from as int, j + 1)));
        }
        j = j + 1;
    }
    proof {
        assert(views.subrange(from as int, views.len() as int) =~= views.skip(from as int));
    }
    acc
}

/// The descent starts at the `idx`-th suffix of `name` with nameserver
/// `host`: that suffix has a cached delegation naming `host`, no more
/// specific suffix has a delegation with a resolvable nameserver, and
/// `ips` holds exactly the cached addresses of `host`.
pub open spec fn chosen_delegation(
    c: DnsCache,
    name: Seq<char>,
    now: int,
    ips: Seq<u32>,
    idx: int,
    host: Seq<char>,
) -> bool {
    &&& 0 <= idx < crate::buffer::name_labels(name).len()
    &&& cached_ns_host(c, suffix_at(name, idx), host, now)
    &&& forall|idx2: int, host2: Seq<char>|
        #![trigger cached_ns_host(c, suffix_at(name, idx2), host2, now)]
        (0 <= idx2 < idx && cached_ns_host(c, suffix_at(name, idx2), host2, now)) ==> (forall|
            ip: u32,
        |
            !cached_a_ip(c, host2, ip, now))
    &&& forall|ip: u32|
        #[trigger] cached_a_ip(c, host, ip, now) <==> exists|x: int|
            0 <= x < ips.len() && ips[x] == ip
}

/// What picking cached starting addresses at second `now` means.  `Some`
/// commits to the most specific suffix of `name` whose cached delegation
/// has a nameserver with cached address records, and carries exactly the
/// cached addresses of the chosen host.  `None` exactly when no suffix
/// of `name` has a cached delegation with a resolvable nameserver.
pub open spec fn cached_start_post(
    c: DnsCache,
    name: Seq<char>,
    now: int,
    r: Option<Vec<u32>>,
) -> bool {
    match r {
        Some(ips) => exists|idx: int, host: Seq<char>|
            #[trigger] chosen_delegation(c, name, now, ips@, idx, host),
        None => forall|idx: int, host: Seq<char>|
            #![trigger cached_ns_host(c, suffix_at(name, idx), host, now)]
            (0 <= idx < crate::buffer::name_labels(name).len() && cached_ns_host(
                c,
                suffix_at(name, idx),
                host,
                now,
            )) ==> (forall|ip: u32| !cached_a_ip(c, host, ip, now)),
    }
}

/// Picks starting addresses for a descent from the cache, at second
/// `now`: scanning the suffixes of `name` from most to least specific,
/// the first cached delegation whose nameserver has cached address
/// records supplies all of that host's cached addresses.  `None` sends
/// the caller to the root hints: no suffix has such a delegation.
pub fn cached_start_ips_at(cache: &DnsCache, name: &str, now: u64) -> (r: Option<Vec<u32>>)
    requires
        cache.wf(),
    ensures
        cached_start_post(*cache, name@, now as int, r),
{
    let labels = split_name(name);
    let ghost lviews = labels@.map_values(|l: String| l@);
    let mut i: usize = 0;
    while i < labels.len()
        invariant
            cache.wf(),
            lviews == labels@.map_values(|l: String| l@),
            lviews == crate::buffer::name_labels(name@),
            i <= labels@.len(),
            forall|idx: int, host: Seq<char>|
                #![trigger cached_ns_host(*cache, suffix_at(name@, idx), host, now as int)]
                (0 <= idx < i && cached_ns_host(*cache, suffix_at(name@, idx), host, now as int))
                    ==> (forall|ip: u32| !cached_a_ip(*cache, host, ip, now as int)),
        decreases labels@.len() - i,
    {
        let domain = join_from(&labels, i);
        proof {
            assert(domain@ == suffix_at(name@, i as int));
        }
        match cache.get_at(domain.as_str(), &QueryType::NS, now) {
            Some(nss) => {
                let mut x: usize = 0;
                while x < nss.len()
                    invariant
                        cache.wf(),
                        lviews == labels@.map_values(|l: String| l@),
                        lviews == crate::buffer::name_labels(name@),
                        i < labels@.len(),
                        domain@ == suffix_at(name@, i as int),
                        get_post(
                            *cache,
                            domain@,
                            QueryType::NS,
                            now as int,
                            Some(nss),
                        ),
                        x <= nss@.len(),
                        forall|x2: int, host: Seq<char>|
                            #![trigger ns_record_of(nss@[x2]@, host)]
                            (0 <= x2 < x && ns_record_of(nss@[x2]@, host)) ==> (forall|ip: u32|
                                !cached_a_ip(*cache, host, ip, now as int)),
                        forall|idx2: int, host2: Seq<char>|
                            #![trigger cached_ns_host(*cache, suffix_at(name@, idx2), host2, now as int)]
                            (0 <= idx2 < i && cached_ns_host(
                                *cache,
                                suffix_at(name@, idx2),
                                host2,
                                now as int,
                            )) ==> (forall|ip: u32| !cached_a_ip(*cache, host2, ip, now as int)),
                    decreases nss@.len() - x,
                {
                    if let Record::NS(host) = &nss[x].record {
                        match cache.get_at(host.as_str(), &QueryType::A, now) {
                            Some(resolved) => {
                                let mut ips: Vec<u32> = Vec::new();
                                let mut y: usize = 0;
                                while y < resolved.len()
                                    invariant
                                        cache.wf(),
                                        get_post(
                                            *cache,
                                            host@,
                                            QueryType::A,
                                            now as int,
                                            Some(resolved),
                                        ),
                                        y <= resolved@.len(),
                                        forall|z: int|
                                            0 <= z < ips@.len() ==> cached_a_ip(
                                                *cache,
                                                host@,
                                                #[trigger] ips@[z],
                                                now as int,
                                            ),
                                        forall|y2: int|
                                            #![trigger resolved@[y2]]
                                            0 <= y2 < y ==> (match resolved@[y2]@.record {
                                                RecordV::A(ip0) => exists|x4: int|
                                                    0 <= x4 < ips@.len() && ips@[x4] == ip0,
                                                _ => true,
                                            }),
                                    decreases resolved@.len() - y,
                                {
                                    let ghost pre_ips = ips@;
                                    if let Record::A(ip) = &resolved[y].record {
                                        proof {
                                            let a = resolved@[y as int]@;
                                            assert(exists|x3: int|
                                                0 <= x3 < resolved@.len() && (
                                                #[trigger] resolved@[x3])@ == a);
                                            assert(live(*cache, host@, QueryType::A, now as int, a));
                                        }
                                        ips.push(*ip);
                                        proof {
                                            assert forall|y2: int|
                                                #![trigger resolved@[y2]]
                                                0 <= y2 < y + 1 implies (match resolved@[y2]@.record {
                                                RecordV::A(ip0) => exists|x4: int|
                                                    0 <= x4 < ips@.len() && ips@[x4] == ip0,
                                                _ => true,
                                            }) by {
                                                match resolved@[y2]@.record {
                                                    RecordV::A(ip0) => {
                                                        if y2 < y {
                                                            let x4 = choose|x4: int|
                                                                0 <= x4 < pre_ips.len()
                                                                    && pre_ips[x4] == ip0;
                                                            assert(ips@[x4] == pre_ips[x4]);
                                                            assert(0 <= x4 < ips@.len() && ips@[x4]
                                                                == ip0);
                                                        } else {
                                                            assert(ips@[pre_ips.len() as int]
                                                                == ip0);
                                                        }
                                                    },
                                                    _ => {},
                                                }
                                            };
                                        }
                                    }
                                    y = y + 1;
                                }
                                proof {
                                    let a = nss@[x as int]@;
                                    assert(exists|x3: int|
                                        0 <= x3 < nss@.len() && (#[trigger] nss@[x3])@ == a);
                                    assert(live(*cache, domain@, QueryType::NS, now as int, a));
                                    assert(cached_ns_host(
                                        *cache,
                                        suffix_at(name@, i as int),
                                        host@,
                                        now as int,
                                    ));
                                    assert forall|ip: u32|
                                        #[trigger] cached_a_ip(*cache, host@, ip, now as int)
                                            <==> exists|x4: int|
                                            0 <= x4 < ips@.len() && ips@[x4] == ip by {
                                        if cached_a_ip(*cache, host@, ip, now as int) {
                                            let a2 = choose|a2: AnswerV|
                                                #[trigger] live(
                                                    *cache,
                                                    host@,
                                                    QueryType::A,
                                                    now as int,
                                                    a2,
                                                ) && a2.record == RecordV::A(ip);
                                            let y2 = choose|y2: int|
                                                0 <= y2 < resolved@.len() && (
                                                #[trigger] resolved@[y2])@ == a2;
                                            assert(resolved@[y2]@.record == RecordV::A(ip));
                                            assert(exists|x4: int|
                                                0 <= x4 < ips@.len() && ips@[x4] == ip);
                                        }
                                        if exists|x4: int| 0 <= x4 < ips@.len() && ips@[x4] == ip {
                                            let x4 = choose|x4: int|
                                                0 <= x4 < ips@.len() && ips@[x4] == ip;
                                            assert(cached_a_ip(
                                                *cache,
                                                host@,
                                                #[trigger] ips@[x4],
                                                now as int,
                                            ));
                                        }
                                    };
                                    assert(0 <= (i as int)
                                        < crate::buffer::name_labels(name@).len());
                                    assert(chosen_delegation(
                                        *cache,
                                        name@,
                                        now as int,
                                        ips@,
                                        i as int,
                                        host@,
                                    ));
                                    assert(exists|idx: int, host2: Seq<char>|
                                        #[trigger] chosen_delegation(
                                            *cache,
                                            name@,
                                            now as int,
                                            ips@,
                                            idx,
                                            host2,
                                        ));
                                    assert(Some(ips)->Some_0@ == ips@);
                                }
                                return Some(ips);
                            },
                            None => {
                                proof {
                                    let h = nss@[x as int]@.record->NS_0;
                                    assert(ns_record_of(nss@[x as int]@, h));
                                    assert forall|ip: u32|
                                        !cached_a_ip(*cache, h, ip, now as int) by {
                                        if cached_a_ip(*cache, h, ip, now as int) {
                                            let a = choose|a: AnswerV|
                                                #[trigger] live(
                                                    *cache,
                                                    h,
                                                    QueryType::A,
                                                    now as int,
                                                    a,
                                                ) && a.record == RecordV::A(ip);
                                            assert(false);
                                        }
                                    };
                                }
                            },
                        }
                    }
                    x = x + 1;
                }
                proof {
                    assert forall|host: Seq<char>|
                        cached_ns_host(*cache, suffix_at(name@, i as int), host, now as int)
                            implies (forall|ip: u32|
                        !cached_a_ip(*cache, host, ip, now as int)) by {
                        let a = choose|a: AnswerV|
                            #[trigger] live(
                                *cache,
                                suffix_at(name@, i as int),
                                QueryType::NS,
                                now as int,
                                a,
                            ) && a.record == RecordV::NS(host);
                        let x2 = choose|x2: int|
                            0 <= x2 < nss@.len() && (#[trigger] nss@[x2])@ == a;
                        assert(ns_record_of(nss@[x2]@, host));
                        assert(forall|ip: u32| !cached_a_ip(*cache, host, ip, now as int));
                    };
                }
            },
            None => {
                proof {
                    assert forall|host: Seq<char>|
                        cached_ns_host(*cache, suffix_at(name@, i as int), host, now as int)
                            implies (forall|ip: u32|
                        !cached_a_ip(*cache, host, ip, now as int)) by {
                        let a = choose|a: AnswerV|
                            #[trigger] live(
                                *cache,
                                suffix_at(name@, i as int),
                                QueryType::NS,
                                now as int,
                                a,
                            ) && a.record == RecordV::NS(host);
                        assert(false);
                    };
                }
            },
        }
        i = i + 1;
    }
    None
}

/// Picks starting addresses for a descent from the cache, by the wall
/// clock.
pub fn cached_start_ips(cache: &DnsCache, name: &str) -> (r: Option<Vec<u32>>)
    requires
        cache.wf(),
    ensures
        exists|now: int|
            #[trigger] clock_second(now) && cached_start_post(*cache, name@, now, r),
{
    let now = crate::dns_cache::wall_clock_second();
    let r = cached_start_ips_at(cache, name, now);
    proof {
        assert(clock_second(now as int));
    }
    r
}

} // verus!
