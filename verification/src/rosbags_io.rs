//! The survey of a container: for each topic its message type, how many
//! records it has and when the first and the last came, and the same for the
//! container as a whole.

use vstd::prelude::*;
use crate::text::str_eq;

verus! {

/// What is known of one topic. Times are those of the records.
#[derive(Clone, Debug, PartialEq, Eq)]
pub struct TopicStat {
    pub topic: String,
    /// The message type of the topic's first record.
    pub ty: String,
    pub count: u64,
    pub first: u64,
    pub last: u64,
}

/// A topic's numbers as plain values.
pub struct TopicStatView {
    pub topic: Seq<char>,
    pub ty: Seq<char>,
    pub count: u64,
    pub first: u64,
    pub last: u64,
}

impl View for TopicStat {
    type V = TopicStatView;

    open spec fn view(&self) -> TopicStatView {
        TopicStatView {
            topic: self.topic@,
            ty: self.ty@,
            count: self.count,
            first: self.first,
            last: self.last,
        }
    }
}

/// The views of the topics' numbers.
pub open spec fn stat_views(stats: Seq<TopicStat>) -> Seq<TopicStatView> {
    Seq::new(stats.len(), |i: int| stats[i]@)
}

/// The survey as plain values.
pub struct SurveyView {
    /// The topics in the order of their first record.
    pub topics: Seq<TopicStatView>,
    /// The time of the earliest record with a declared connection.
    pub earliest: Option<u64>,
    /// The time of the latest such record, zero where there is none.
    pub latest: u64,
    /// Each record counted once, and once more where its connection was
    /// declared.
    pub total: u64,
}

/// The position of `topic` among `topics`, or their number where it is not
/// among them.
pub open spec fn topic_index(topics: Seq<TopicStatView>, topic: Seq<char>) -> int
    decreases topics.len(),
{
    if topics.len() == 0 {
        0
    } else if topics[0].topic == topic {
        0
    } else {
        1 + topic_index(topics.drop_first(), topic)
    }
}

proof fn lemma_topic_index(topics: Seq<TopicStatView>, topic: Seq<char>, at: int)
    requires
        0 <= at <= topics.len(),
        at < topics.len() ==> topics[at].topic == topic,
        forall|i: int| 0 <= i < at ==> (#[trigger] topics[i]).topic != topic,
    ensures
        topic_index(topics, topic) == at,
    decreases topics.len(),
{
    if topics.len() != 0 && at > 0 {
        let rest = topics.drop_first();
        assert(topics[0].topic != topic);
        assert forall|i: int| 0 <= i < at - 1 implies (#[trigger] rest[i]).topic != topic by {
            assert(rest[i] == topics[i + 1]);
        }
        lemma_topic_index(rest, topic, at - 1);
    }
}

/// The lesser of two times.
pub open spec fn earlier(a: u64, b: u64) -> u64 {
    if a < b {
        a
    } else {
        b
    }
}

/// The greater of two times.
pub open spec fn later(a: u64, b: u64) -> u64 {
    if a > b {
        a
    } else {
        b
    }
}

/// The topics after a record on `topic` of the type `ty` at `time`.
pub open spec fn topics_after(
    topics: Seq<TopicStatView>,
    topic: Seq<char>,
    ty: Seq<char>,
    time: u64,
) -> Seq<TopicStatView> {
    let i = topic_index(topics, topic);
    if i < topics.len() {
        topics.update(
            i,
            TopicStatView {
                count: (topics[i].count + 1) as u64,
                first: earlier(topics[i].first, time),
                last: later(topics[i].last, time),
                ..topics[i]
            },
        )
    } else {
        topics.push(TopicStatView { topic, ty, count: 1, first: time, last: time })
    }
}

/// The survey after one more record. A record without a declared connection
/// is counted and nothing else.
pub open spec fn surveyed(
    s: SurveyView,
    connection: Option<(Seq<char>, Seq<char>)>,
    time: u64,
) -> SurveyView {
    match connection {
        None => SurveyView { total: (s.total + 1) as u64, ..s },
        Some((topic, ty)) => SurveyView {
            topics: topics_after(s.topics, topic, ty, time),
            earliest: match s.earliest {
                Some(e) => Some(earlier(e, time)),
                None => Some(time),
            },
            latest: later(s.latest, time),
            total: (s.total + 2) as u64,
        },
    }
}

/// The survey of a container while its records are read.
#[derive(Clone, Debug)]
pub struct Survey {
    topics: Vec<TopicStat>,
    earliest: Option<u64>,
    latest: u64,
    total: u64,
}

impl View for Survey {
    type V = SurveyView;

    closed spec fn view(&self) -> SurveyView {
        SurveyView {
            topics: stat_views(self.topics@),
            earliest: self.earliest,
            latest: self.latest,
            total: self.total,
        }
    }
}

impl Survey {
    /// The counts fit: no topic has more records than were counted in all.
    pub closed spec fn wf(&self) -> bool {
        forall|i: int| 0 <= i < self.topics@.len() ==> 2 * self.topics@[i].count <= self.total
    }

    /// A survey of no records.
    pub fn new() -> (s: Survey)
        ensures
            s.wf(),
            s@ == (SurveyView { topics: Seq::empty(), earliest: None, latest: 0, total: 0 }),
    {
        let s = Survey { topics: Vec::new(), earliest: None, latest: 0, total: 0 };
        assert(s@.topics =~= Seq::<TopicStatView>::empty());
        s
    }

    /// Takes in a record: the topic and the message type of its connection,
    /// where that was declared, and its time.
    pub fn observe(&mut self, connection: Option<(&str, &str)>, time: u64)
        requires
            old(self).wf(),
            old(self)@.total <= u64::MAX - 2,
        ensures
            final(self).wf(),
            final(self)@ == surveyed(
                old(self)@,
                match connection {
                    Some((topic, ty)) => Some((topic@, ty@)),
                    None => None,
                },
                time,
            ),
    {
        let (topic, ty) = match connection {
            Some(c) => c,
            None => {
                self.total = self.total + 1;
                return ;
            },
        };
        let ghost before = stat_views(self.topics@);
        let mut i: usize = 0;
        while i < self.topics.len() && !str_eq(self.topics[i].topic.as_str(), topic)
            invariant
                i <= self.topics@.len(),
                self.topics == old(self).topics,
                forall|k: int| 0 <= k < i ==> (#[trigger] before[k]).topic != topic@,
                before == stat_views(self.topics@),
            decreases self.topics@.len() - i,
        {
            assert(before[i as int] == self.topics@[i as int]@);
            i = i + 1;
        }
        if i < self.topics.len() {
            proof {
                assert(before[i as int] == self.topics@[i as int]@);
                lemma_topic_index(before, topic@, i as int);
            }
            self.topics[i].count = self.topics[i].count + 1;
            if time < self.topics[i].first {
                self.topics[i].first = time;
            }
            if time > self.topics[i].last {
                self.topics[i].last = time;
            }
        } else {
            proof {
                lemma_topic_index(before, topic@, i as int);
            }
            self.topics.push(
                TopicStat {
                    topic: topic.to_owned(),
                    ty: ty.to_owned(),
                    count: 1,
                    first: time,
                    last: time,
                },
            );
        }
        self.earliest = match self.earliest {
            Some(e) => Some(
                if time < e {
                    time
                } else {
                    e
                },
            ),
            None => Some(time),
        };
        if time > self.latest {
            self.latest = time;
        }
        self.total = self.total + 2;
        proof {
            assert(stat_views(self.topics@) =~= topics_after(before, topic@, ty@, time));
        }
    }

    /// The topics, in the order of their first record.
    pub fn topics(&self) -> (t: &Vec<TopicStat>)
        ensures
            stat_views(t@) == self@.topics,
    {
        &self.topics
    }

    /// The time of the earliest record with a declared connection, from which
    /// the report counts its times.
    pub fn earliest(&self) -> (t: Option<u64>)
        ensures
            t == self@.earliest,
    {
        self.earliest
    }

    /// The time of the latest record with a declared connection.
    pub fn latest(&self) -> (t: u64)
        ensures
            t == self@.latest,
    {
        self.latest
    }

    /// The count of records as it is reported.
    pub fn total(&self) -> (n: u64)
        ensures
            n == self@.total,
    {
        self.total
    }
}

} // verus!
