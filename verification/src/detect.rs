//! Signs of a restrictive network.
//!
//! Symptoms are counted and described with care: what is seen fits many
//! causes, and nobody is accused.
use vstd::prelude::*;

use crate::search::{first_index, lemma_first_index, lemma_first_index_is};

verus! {

#[derive(Clone, Copy, Debug, PartialEq, Eq, Structural)]
pub enum Symptom {
    RepeatedUdpTimeout,
    QuicHandshakeFailure,
    TcpSuccessUdpFailure,
    DnsFailure,
    TlsHandshakeFailure,
    ConnectionReset,
    EndpointSpecificBlocking,
}

/// The symptoms in the alphabetical order of their names.
pub open spec fn by_name() -> Seq<Symptom> {
    seq![
        Symptom::ConnectionReset,
        Symptom::DnsFailure,
        Symptom::EndpointSpecificBlocking,
        Symptom::QuicHandshakeFailure,
        Symptom::RepeatedUdpTimeout,
        Symptom::TcpSuccessUdpFailure,
        Symptom::TlsHandshakeFailure,
    ]
}

/// Inserts a symptom behind those whose wording does not come after its own.
pub open spec fn put_in_order(ordered: Seq<Symptom>, s: Symptom) -> Seq<Symptom>
    decreases ordered.len(),
{
    if ordered.len() == 0 || ordered.last().wording_rank() <= s.wording_rank() {
        ordered.push(s)
    } else {
        put_in_order(ordered.drop_last(), s).push(ordered.last())
    }
}

/// The symptoms in the alphabetical order of their wordings.
pub open spec fn in_order(symptoms: Seq<Symptom>) -> Seq<Symptom>
    decreases symptoms.len(),
{
    if symptoms.len() == 0 {
        seq![]
    } else {
        put_in_order(in_order(symptoms.drop_last()), symptoms.last())
    }
}

/// The wordings, separated by spaces.
pub open spec fn worded(symptoms: Seq<Symptom>) -> Seq<char>
    decreases symptoms.len(),
{
    if symptoms.len() == 0 {
        seq![]
    } else if symptoms.len() == 1 {
        symptoms[0].wording()
    } else {
        worded(symptoms.drop_last()) + " "@ + symptoms.last().wording()
    }
}

/// The summary of symptoms that occur together.
pub open spec fn summary_of(symptoms: Seq<Symptom>) -> Seq<char> {
    if symptoms.len() == 0 {
        "No restrictive-network symptoms detected."@
    } else {
        "UDP connectivity appears degraded. "@ + worded(in_order(symptoms))
    }
}

impl Symptom {
    pub open spec fn wording(self) -> Seq<char> {
        match self {
            Symptom::RepeatedUdpTimeout => "Repeated UDP packets are timing out."@,
            Symptom::QuicHandshakeFailure => "QUIC handshakes are failing consistently."@,
            Symptom::TcpSuccessUdpFailure => "TCP succeeds while UDP traffic appears degraded."@,
            Symptom::DnsFailure => "DNS resolution is failing or slow."@,
            Symptom::TlsHandshakeFailure => "TLS handshakes are failing."@,
            Symptom::ConnectionReset => "Connections are being reset between retransmits."@,
            Symptom::EndpointSpecificBlocking =>
                "A specific endpoint is unreachable across transports."@,
        }
    }

    /// The place of the wording in the alphabetical order of all wordings.
    pub open spec fn wording_rank(self) -> int {
        match self {
            Symptom::EndpointSpecificBlocking => 0,
            Symptom::ConnectionReset => 1,
            Symptom::DnsFailure => 2,
            Symptom::QuicHandshakeFailure => 3,
            Symptom::RepeatedUdpTimeout => 4,
            Symptom::TcpSuccessUdpFailure => 5,
            Symptom::TlsHandshakeFailure => 6,
        }
    }

    fn rank(self) -> (r: u8)
        ensures
            r == self.wording_rank(),
    {
        match self {
            Symptom::EndpointSpecificBlocking => 0,
            Symptom::ConnectionReset => 1,
            Symptom::DnsFailure => 2,
            Symptom::QuicHandshakeFailure => 3,
            Symptom::RepeatedUdpTimeout => 4,
            Symptom::TcpSuccessUdpFailure => 5,
            Symptom::TlsHandshakeFailure => 6,
        }
    }

    /// The symptom in words that blame nobody.
    pub fn description(self) -> (r: &'static str)
        ensures
            r@ == self.wording(),
    {
        match self {
            Symptom::RepeatedUdpTimeout => "Repeated UDP packets are timing out.",
            Symptom::QuicHandshakeFailure => "QUIC handshakes are failing consistently.",
            Symptom::TcpSuccessUdpFailure => "TCP succeeds while UDP traffic appears degraded.",
            Symptom::DnsFailure => "DNS resolution is failing or slow.",
            Symptom::TlsHandshakeFailure => "TLS handshakes are failing.",
            Symptom::ConnectionReset => "Connections are being reset between retransmits.",
            Symptom::EndpointSpecificBlocking =>
                "A specific endpoint is unreachable across transports.",
        }
    }

    /// The summary of symptoms that occur together: their wordings in
    /// alphabetical order.
    pub fn summary(symptoms: &[Symptom]) -> (r: String)
        ensures
            r@ == summary_of(symptoms@),
    {
        if symptoms.len() == 0 {
            return "No restrictive-network symptoms detected.".to_owned();
        }
        let ordered = order(symptoms);
        let mut labels = String::new();
        let mut i: usize = 0;
        assert(ordered@.take(0) =~= seq![]);
        while i < ordered.len()
            invariant
                i <= ordered.len(),
                labels@ == worded(ordered@.take(i as int)),
            decreases ordered.len() - i,
        {
            let ghost more = ordered@.take(i + 1);
            assert(more.drop_last() =~= ordered@.take(i as int));
            if i > 0 {
                labels.append(" ");
            }
            labels.append(ordered[i].description());
            assert(labels@ =~= worded(more));
            i = i + 1;
        }
        assert(ordered@.take(i as int) =~= ordered@);
        let mut out = "UDP connectivity appears degraded. ".to_owned();
        out.append(&labels);
        out
    }
}

fn order(symptoms: &[Symptom]) -> (r: Vec<Symptom>)
    ensures
        r@ == in_order(symptoms@),
{
    let mut r: Vec<Symptom> = Vec::new();
    let mut n: usize = 0;
    assert(symptoms@.take(0) =~= seq![]);
    while n < symptoms.len()
        invariant
            n <= symptoms.len(),
            r@ == in_order(symptoms@.take(n as int)),
        decreases symptoms.len() - n,
    {
        let s = symptoms[n];
        let ghost before = r@;
        let mut at: usize = r.len();
        assert(before =~= before.take(at as int));
        assert(put_in_order(before, s) =~= put_in_order(before.take(at as int), s) + before.skip(
            at as int,
        ));
        while at > 0 && r[at - 1].rank() > s.rank()
            invariant
                at <= r.len(),
                r@ == before,
                put_in_order(before, s) == put_in_order(before.take(at as int), s) + before.skip(
                    at as int,
                ),
            decreases at,
        {
            proof {
                let front = before.take(at as int);
                assert(front.drop_last() =~= before.take(at - 1));
                assert(seq![before[at - 1]] + before.skip(at as int) =~= before.skip(at - 1));
                assert(put_in_order(before.take(at - 1), s).push(before[at - 1]) + before.skip(
                    at as int,
                ) =~= put_in_order(before.take(at - 1), s) + before.skip(at - 1));
            }
            at = at - 1;
        }
        r.insert(at, s);
        proof {
            let front = before.take(at as int);
            assert(put_in_order(front, s) == front.push(s));
            assert(r@ =~= front.push(s) + before.skip(at as int));
            assert(symptoms@.take(n + 1).drop_last() =~= symptoms@.take(n as int));
        }
        n = n + 1;
    }
    assert(symptoms@.take(n as int) =~= symptoms@);
    r
}

/// How often each symptom has been seen.
#[derive(Debug)]
pub struct RestrictionModel {
    pub counts: Vec<(Symptom, u32)>,
}

impl View for RestrictionModel {
    type V = Seq<(Symptom, u32)>;

    open spec fn view(&self) -> Seq<(Symptom, u32)> {
        self.counts@
    }
}

pub open spec fn is_of(symptom: Symptom) -> spec_fn((Symptom, u32)) -> bool {
    |c: (Symptom, u32)| c.0 == symptom
}

/// How often the symptom has been seen, if at all.
pub open spec fn tally(counts: Seq<(Symptom, u32)>, symptom: Symptom) -> Option<u32> {
    let at = first_index(counts, is_of(symptom));
    if at < counts.len() {
        Some(counts[at].1)
    } else {
        None
    }
}

/// The counts once the symptom is seen again.
pub open spec fn counted(counts: Seq<(Symptom, u32)>, symptom: Symptom) -> Seq<(Symptom, u32)> {
    let at = first_index(counts, is_of(symptom));
    if at < counts.len() {
        counts.update(at, (symptom, (counts[at].1 + 1) as u32))
    } else {
        counts.push((symptom, 1))
    }
}

/// Those of the symptoms that have been seen at least `min` times.
pub open spec fn frequent(counts: Seq<(Symptom, u32)>, symptoms: Seq<Symptom>, min: u32) -> Seq<
    Symptom,
>
    decreases symptoms.len(),
{
    if symptoms.len() == 0 {
        seq![]
    } else {
        let s = symptoms.last();
        let rest = frequent(counts, symptoms.drop_last(), min);
        match tally(counts, s) {
            Some(n) => if n >= min {
                rest.push(s)
            } else {
                rest
            },
            None => rest,
        }
    }
}

impl Default for RestrictionModel {
    fn default() -> (r: Self)
        ensures
            r@ == Seq::<(Symptom, u32)>::empty(),
    {
        RestrictionModel { counts: Vec::new() }
    }
}

impl RestrictionModel {
    fn find(&self, symptom: Symptom) -> (r: usize)
        ensures
            r == first_index(self@, is_of(symptom)),
            r <= self.counts@.len(),
    {
        let mut i: usize = 0;
        while i < self.counts.len() && self.counts[i].0 != symptom
            invariant
                i <= self.counts.len(),
                forall|j: int| 0 <= j < i ==> (#[trigger] self.counts@[j]).0 != symptom,
            decreases self.counts.len() - i,
        {
            i = i + 1;
        }
        proof {
            lemma_first_index_is(self@, is_of(symptom), i as int);
        }
        i
    }

    pub fn observe(&mut self, symptom: Symptom)
        requires
            tally(old(self)@, symptom) != Some(u32::MAX),
        ensures
            final(self)@ == counted(old(self)@, symptom),
    {
        let at: usize = self.find(symptom);
        if at < self.counts.len() {
            let n: u32 = self.counts[at].1;
            self.counts.set(at, (symptom, n + 1));
        } else {
            self.counts.push((symptom, 1));
        }
    }

    /// The symptoms seen at least so often, by name.
    pub fn flagged(&self, min_occurrences: u32) -> (r: Vec<Symptom>)
        ensures
            r@ == frequent(self@, by_name(), min_occurrences),
    {
        let all = vec![
            Symptom::ConnectionReset,
            Symptom::DnsFailure,
            Symptom::EndpointSpecificBlocking,
            Symptom::QuicHandshakeFailure,
            Symptom::RepeatedUdpTimeout,
            Symptom::TcpSuccessUdpFailure,
            Symptom::TlsHandshakeFailure,
        ];
        assert(all@ =~= by_name());
        let mut out: Vec<Symptom> = Vec::new();
        let mut i: usize = 0;
        assert(all@.take(0) =~= seq![]);
        while i < all.len()
            invariant
                i <= all.len(),
                out@ == frequent(self@, all@.take(i as int), min_occurrences),
            decreases all.len() - i,
        {
            assert(all@.take(i + 1).drop_last() =~= all@.take(i as int));
            let at: usize = self.find(all[i]);
            if at < self.counts.len() && self.counts[at].1 >= min_occurrences {
                out.push(all[i]);
            }
            i = i + 1;
        }
        assert(all@.take(i as int) =~= all@);
        out
    }

    pub fn describe(&self, min_occurrences: u32) -> (r: String)
        ensures
            r@ == summary_of(frequent(self@, by_name(), min_occurrences)),
    {
        Symptom::summary(&self.flagged(min_occurrences))
    }

    pub fn reset(&mut self)
        ensures
            final(self)@ == Seq::<(Symptom, u32)>::empty(),
    {
        self.counts.clear();
    }
}

/// Whether text `a` comes before text `b` in the dictionary.
pub open spec fn comes_before(a: Seq<char>, b: Seq<char>) -> bool {
    exists|k: int|
        0 <= k < a.len() && k < b.len() && #[trigger] a[k] < b[k] && a.take(k) == b.take(k)
}

/// A lower rank is an earlier wording.
pub proof fn law_ranks_are_alphabetical(a: Symptom, b: Symptom)
    requires
        a.wording_rank() < b.wording_rank(),
    ensures
        comes_before(a.wording(), b.wording()),
{
    reveal_strlit("Repeated UDP packets are timing out.");
    reveal_strlit("QUIC handshakes are failing consistently.");
    reveal_strlit("TCP succeeds while UDP traffic appears degraded.");
    reveal_strlit("DNS resolution is failing or slow.");
    reveal_strlit("TLS handshakes are failing.");
    reveal_strlit("Connections are being reset between retransmits.");
    reveal_strlit("A specific endpoint is unreachable across transports.");
    let x = a.wording();
    let y = b.wording();
    if a == Symptom::TcpSuccessUdpFailure && b == Symptom::TlsHandshakeFailure {
        assert(x[1] < y[1]);
        assert(x.take(1) =~= y.take(1));
    } else {
        assert(x[0] < y[0]);
        assert(x.take(0) =~= y.take(0));
    }
}

proof fn lemma_put_in_order(ordered: Seq<Symptom>, s: Symptom)
    requires
        forall|i: int, j: int|
            0 <= i <= j < ordered.len() ==> (#[trigger] ordered[i]).wording_rank() <= (
            #[trigger] ordered[j]).wording_rank(),
    ensures
        put_in_order(ordered, s).to_multiset() =~= ordered.to_multiset().insert(s),
        forall|i: int, j: int|
            0 <= i <= j < put_in_order(ordered, s).len() ==> (#[trigger] put_in_order(
                ordered,
                s,
            )[i]).wording_rank() <= (#[trigger] put_in_order(ordered, s)[j]).wording_rank(),
        put_in_order(ordered, s).len() == ordered.len() + 1,
        put_in_order(ordered, s).last() == s || (ordered.len() > 0 && put_in_order(
            ordered,
            s,
        ).last() == ordered.last()),
    decreases ordered.len(),
{
    broadcast use vstd::seq_lib::group_to_multiset_ensures;

    if ordered.len() == 0 || ordered.last().wording_rank() <= s.wording_rank() {
    } else {
        lemma_put_in_order(ordered.drop_last(), s);
        assert(ordered =~= ordered.drop_last().push(ordered.last()));
        let inner = put_in_order(ordered.drop_last(), s);
        let whole = inner.push(ordered.last());
        assert forall|i: int, j: int| 0 <= i <= j < whole.len() implies (
        #[trigger] whole[i]).wording_rank() <= (#[trigger] whole[j]).wording_rank() by {
            if j == whole.len() - 1 && i < j {
                assert(inner[i].wording_rank() <= inner[inner.len() - 1].wording_rank());
                assert(inner.last() == s || inner.last() == ordered[ordered.len() - 2]);
            }
        }
    }
}

/// Whatever the symptoms, a summary starts by saying how things appear.
pub proof fn law_summary_is_cautious(symptoms: Seq<Symptom>)
    requires
        symptoms.len() > 0,
    ensures
        "UDP connectivity appears degraded. "@.is_prefix_of(summary_of(symptoms)),
{
}

/// A summary names every symptom it was given, as often as it was given, in
/// alphabetical order.
pub proof fn law_order_keeps_all(symptoms: Seq<Symptom>)
    ensures
        in_order(symptoms).to_multiset() =~= symptoms.to_multiset(),
        forall|i: int, j: int|
            0 <= i <= j < in_order(symptoms).len() ==> (#[trigger] in_order(
                symptoms,
            )[i]).wording_rank() <= (#[trigger] in_order(symptoms)[j]).wording_rank(),
    decreases symptoms.len(),
{
    broadcast use vstd::seq_lib::group_to_multiset_ensures;

    if symptoms.len() > 0 {
        law_order_keeps_all(symptoms.drop_last());
        lemma_put_in_order(in_order(symptoms.drop_last()), symptoms.last());
        assert(symptoms =~= symptoms.drop_last().push(symptoms.last()));
    }
}

/// Each observation counts its own symptom once and no other.
pub proof fn law_counts_are_separate(counts: Seq<(Symptom, u32)>, seen: Symptom, other: Symptom)
    requires
        seen != other,
        tally(counts, seen) != Some(u32::MAX),
    ensures
        tally(counted(counts, seen), other) == tally(counts, other),
        tally(counted(counts, seen), seen) == Some(
            match tally(counts, seen) {
                Some(n) => (n + 1) as u32,
                None => 1u32,
            },
        ),
{
    lemma_first_index(counts, is_of(seen));
    lemma_first_index(counts, is_of(other));
    let after = counted(counts, seen);
    let at = first_index(counts, is_of(seen));
    let o = first_index(counts, is_of(other));
    assert(at < counts.len() ==> is_of(seen)(counts[at]));
    assert(o < counts.len() ==> is_of(other)(counts[o]));
    lemma_first_index_is(after, is_of(seen), at);
    assert forall|j: int| 0 <= j < o implies !is_of(other)(#[trigger] after[j]) by {
        if j != at {
            assert(!is_of(other)(counts[j]));
        }
    }
    if o < counts.len() {
        lemma_first_index_is(after, is_of(other), o);
    } else {
        lemma_first_index_is(after, is_of(other), after.len() as int);
    }
}

/// A summary does not depend on the order of its symptoms.
pub proof fn law_summary_ignores_order(symptoms: Seq<Symptom>, others: Seq<Symptom>)
    requires
        symptoms.to_multiset() == others.to_multiset(),
    ensures
        summary_of(symptoms) == summary_of(others),
{
    broadcast use vstd::seq_lib::group_to_multiset_ensures;

    law_order_keeps_all(symptoms);
    law_order_keeps_all(others);
    let no_later = |a: Symptom, b: Symptom| a.wording_rank() <= b.wording_rank();
    vstd::seq_lib::lemma_sorted_unique(in_order(symptoms), in_order(others), no_later);
    assert(symptoms.len() == symptoms.to_multiset().len());
    assert(others.len() == others.to_multiset().len());
}

/// Whether the text holds the part somewhere.
pub open spec fn holds_text(whole: Seq<char>, part: Seq<char>) -> bool {
    exists|i: int|
        0 <= i && i + part.len() <= whole.len() && #[trigger] whole.subrange(i, i + part.len())
            == part
}

proof fn lemma_held_within(front: Seq<char>, whole: Seq<char>, back: Seq<char>, part: Seq<char>)
    requires
        holds_text(whole, part),
    ensures
        holds_text(front + whole + back, part),
{
    let i = choose|i: int|
        0 <= i && i + part.len() <= whole.len() && #[trigger] whole.subrange(i, i + part.len())
            == part;
    let all = front + whole + back;
    let at = front.len() + i;
    assert(all.subrange(at, at + part.len()) =~= whole.subrange(i, i + part.len()));
}

proof fn lemma_held_whole(part: Seq<char>)
    ensures
        holds_text(part, part),
{
    let start: int = 0;
    assert(part.subrange(start, start + part.len()) =~= part);
}

proof fn lemma_worded_holds(symptoms: Seq<Symptom>, k: int)
    requires
        0 <= k < symptoms.len(),
    ensures
        holds_text(worded(symptoms), symptoms[k].wording()),
    decreases symptoms.len(),
{
    let n = symptoms.len() - 1;
    let part = symptoms[k].wording();
    if symptoms.len() == 1 {
        lemma_held_whole(part);
    } else if k == n {
        lemma_held_whole(part);
        lemma_held_within(worded(symptoms.drop_last()) + " "@, part, seq![], part);
        assert(worded(symptoms.drop_last()) + " "@ + part + seq![] =~= worded(symptoms));
    } else {
        lemma_worded_holds(symptoms.drop_last(), k);
        let last = symptoms.last().wording();
        lemma_held_within(seq![], worded(symptoms.drop_last()), " "@ + last, part);
        assert(seq![] + worded(symptoms.drop_last()) + (" "@ + last) =~= worded(symptoms));
    }
}

/// A summary holds the wording of every symptom that it was given.
pub proof fn law_summary_names_all(symptoms: Seq<Symptom>, s: Symptom)
    requires
        symptoms.contains(s),
    ensures
        holds_text(summary_of(symptoms), s.wording()),
{
    broadcast use vstd::seq_lib::group_to_multiset_ensures;

    law_order_keeps_all(symptoms);
    let ordered = in_order(symptoms);
    assert(symptoms.to_multiset().contains(s));
    assert(ordered.contains(s));
    let k = choose|k: int| 0 <= k < ordered.len() && ordered[k] == s;
    lemma_worded_holds(ordered, k);
    let start = "UDP connectivity appears degraded. "@;
    lemma_held_within(start, worded(ordered), seq![], s.wording());
    assert(start + worded(ordered) + seq![] =~= summary_of(symptoms));
}

/// The counts after a history of observations; `None` stands for a reset.
pub open spec fn tallied(history: Seq<Option<Symptom>>) -> Seq<(Symptom, u32)>
    decreases history.len(),
{
    if history.len() == 0 {
        seq![]
    } else {
        match history.last() {
            Some(s) => counted(tallied(history.drop_last()), s),
            None => seq![],
        }
    }
}

/// How often the symptom was observed since the last reset.
pub open spec fn sightings(history: Seq<Option<Symptom>>, symptom: Symptom) -> nat
    decreases history.len(),
{
    if history.len() == 0 {
        0
    } else {
        match history.last() {
            Some(s) => sightings(history.drop_last(), symptom) + (if s == symptom {
                1nat
            } else {
                0
            }),
            None => 0,
        }
    }
}

/// Whether no symptom is observed more often than can be counted.
pub open spec fn countable(history: Seq<Option<Symptom>>) -> bool
    decreases history.len(),
{
    history.len() > 0 ==> countable(history.drop_last()) && (history.last() is Some ==> sightings(
        history.drop_last(),
        history.last()->Some_0,
    ) < u32::MAX)
}

/// Over a whole history, the count of a symptom is how often it was observed
/// since the last reset.
pub proof fn law_counts_follow_history(history: Seq<Option<Symptom>>, symptom: Symptom)
    requires
        countable(history),
    ensures
        sightings(history, symptom) <= u32::MAX,
        tally(tallied(history), symptom) == (if sightings(history, symptom) == 0 {
            None
        } else {
            Some(sightings(history, symptom) as u32)
        }),
    decreases history.len(),
{
    let empty: Seq<(Symptom, u32)> = seq![];
    lemma_first_index(empty, is_of(symptom));
    if history.len() > 0 {
        let earlier = history.drop_last();
        law_counts_follow_history(earlier, symptom);
        if let Some(s) = history.last() {
            law_counts_follow_history(earlier, s);
            if s != symptom {
                law_counts_are_separate(tallied(earlier), s, symptom);
            } else {
                let other = if s == Symptom::DnsFailure {
                    Symptom::ConnectionReset
                } else {
                    Symptom::DnsFailure
                };
                law_counts_are_separate(tallied(earlier), s, other);
            }
        }
    }
}

impl Symptom {
    /// The name of the symptom.
    pub open spec fn name(self) -> Seq<char> {
        match self {
            Symptom::RepeatedUdpTimeout => "RepeatedUdpTimeout"@,
            Symptom::QuicHandshakeFailure => "QuicHandshakeFailure"@,
            Symptom::TcpSuccessUdpFailure => "TcpSuccessUdpFailure"@,
            Symptom::DnsFailure => "DnsFailure"@,
            Symptom::TlsHandshakeFailure => "TlsHandshakeFailure"@,
            Symptom::ConnectionReset => "ConnectionReset"@,
            Symptom::EndpointSpecificBlocking => "EndpointSpecificBlocking"@,
        }
    }

    /// The place of the symptom among all by name.
    spec fn name_rank(self) -> int {
        match self {
            Symptom::ConnectionReset => 0,
            Symptom::DnsFailure => 1,
            Symptom::EndpointSpecificBlocking => 2,
            Symptom::QuicHandshakeFailure => 3,
            Symptom::RepeatedUdpTimeout => 4,
            Symptom::TcpSuccessUdpFailure => 5,
            Symptom::TlsHandshakeFailure => 6,
        }
    }
}

proof fn lemma_names_in_order(a: Symptom, b: Symptom)
    requires
        a.name_rank() < b.name_rank(),
    ensures
        comes_before(a.name(), b.name()),
{
    reveal_strlit("RepeatedUdpTimeout");
    reveal_strlit("QuicHandshakeFailure");
    reveal_strlit("TcpSuccessUdpFailure");
    reveal_strlit("DnsFailure");
    reveal_strlit("TlsHandshakeFailure");
    reveal_strlit("ConnectionReset");
    reveal_strlit("EndpointSpecificBlocking");
    let x = a.name();
    let y = b.name();
    if a == Symptom::TcpSuccessUdpFailure {
        assert(x[1] < y[1]);
        assert(x.take(1) =~= y.take(1));
    } else {
        assert(x[0] < y[0]);
        assert(x.take(0) =~= y.take(0));
    }
}

proof fn lemma_frequent(counts: Seq<(Symptom, u32)>, n: int, min: u32)
    requires
        0 <= n <= by_name().len(),
    ensures
        ({
            let f = frequent(counts, by_name().take(n), min);
            &&& forall|i: int| 0 <= i < f.len() ==> (#[trigger] f[i]).name_rank() < n
            &&& forall|i: int, j: int|
                0 <= i < j < f.len() ==> (#[trigger] f[i]).name_rank() < (
                #[trigger] f[j]).name_rank()
            &&& forall|s: Symptom| #[trigger]
                f.contains(s) <==> s.name_rank() < n && match tally(counts, s) {
                    Some(k) => k >= min,
                    None => false,
                }
        }),
    decreases n,
{
    let f = frequent(counts, by_name().take(n), min);
    if n > 0 {
        lemma_frequent(counts, n - 1, min);
        assert(by_name().take(n).drop_last() =~= by_name().take(n - 1));
        let s = by_name()[n - 1];
        assert(s.name_rank() == n - 1);
        let rest = frequent(counts, by_name().take(n - 1), min);
        let kept = match tally(counts, s) {
            Some(k) => k >= min,
            None => false,
        };
        assert(f == if kept {
            rest.push(s)
        } else {
            rest
        });
        assert forall|t: Symptom| #[trigger]
            f.contains(t) <==> t.name_rank() < n && match tally(counts, t) {
                Some(k) => k >= min,
                None => false,
            } by {
            assert(t.name_rank() == n - 1 ==> t == s);
            assert(rest.contains(t) <==> t.name_rank() < n - 1 && match tally(counts, t) {
                Some(k) => k >= min,
                None => false,
            });
            if kept {
                if rest.contains(t) {
                    let i = choose|i: int| 0 <= i < rest.len() && rest[i] == t;
                    assert(f[i] == t);
                }
                if f.contains(t) {
                    let i = choose|i: int| 0 <= i < f.len() && f[i] == t;
                    assert(i < rest.len() ==> rest[i] == t);
                }
                assert(f[rest.len() as int] == s);
            }
        }
    }
}

/// Over a whole history, exactly those symptoms are flagged that were observed
/// often enough since the last reset, and at least once; each of them once, in
/// the order of their names.
pub proof fn law_flagged_follows_history(history: Seq<Option<Symptom>>, min: u32)
    requires
        countable(history),
    ensures
        ({
            let flagged = frequent(tallied(history), by_name(), min);
            &&& flagged.no_duplicates()
            &&& forall|s: Symptom| #[trigger]
                flagged.contains(s) <==> sightings(history, s) >= min && sightings(history, s) >= 1
            &&& forall|i: int, j: int|
                0 <= i < j < flagged.len() ==> comes_before(
                    (#[trigger] flagged[i]).name(),
                    (#[trigger] flagged[j]).name(),
                )
        }),
{
    let flagged = frequent(tallied(history), by_name(), min);
    lemma_frequent(tallied(history), by_name().len() as int, min);
    assert(by_name().take(by_name().len() as int) =~= by_name());
    assert forall|s: Symptom| #[trigger]
        flagged.contains(s) <==> sightings(history, s) >= min && sightings(history, s) >= 1 by {
        law_counts_follow_history(history, s);
    }
    assert forall|i: int, j: int| 0 <= i < j < flagged.len() implies comes_before(
        (#[trigger] flagged[i]).name(),
        (#[trigger] flagged[j]).name(),
    ) by {
        lemma_names_in_order(flagged[i], flagged[j]);
    }
}

/// Each wording is about its own symptom: it starts with what is affected.
pub proof fn law_wordings_name_their_symptom()
    ensures
        "Repeated UDP"@.is_prefix_of(Symptom::RepeatedUdpTimeout.wording()),
        "QUIC"@.is_prefix_of(Symptom::QuicHandshakeFailure.wording()),
        "TCP succeeds"@.is_prefix_of(Symptom::TcpSuccessUdpFailure.wording()),
        "DNS"@.is_prefix_of(Symptom::DnsFailure.wording()),
        "TLS"@.is_prefix_of(Symptom::TlsHandshakeFailure.wording()),
        "Connections"@.is_prefix_of(Symptom::ConnectionReset.wording()),
        "A specific endpoint"@.is_prefix_of(Symptom::EndpointSpecificBlocking.wording()),
{
    reveal_strlit("Repeated UDP");
    reveal_strlit("QUIC");
    reveal_strlit("TCP succeeds");
    reveal_strlit("DNS");
    reveal_strlit("TLS");
    reveal_strlit("Connections");
    reveal_strlit("A specific endpoint");
    reveal_strlit("Repeated UDP packets are timing out.");
    reveal_strlit("QUIC handshakes are failing consistently.");
    reveal_strlit("TCP succeeds while UDP traffic appears degraded.");
    reveal_strlit("DNS resolution is failing or slow.");
    reveal_strlit("TLS handshakes are failing.");
    reveal_strlit("Connections are being reset between retransmits.");
    reveal_strlit("A specific endpoint is unreachable across transports.");
}

} // verus!
