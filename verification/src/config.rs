//! The graph of queues, departments and raisers.

use vstd::prelude::*;
use crate::order::{
    lemma_less_irreflexive, lemma_less_total, lemma_less_transitive, less_text, text_less,
};
use crate::tables::ascending;
use crate::text::{copy_text, same_text, texts_view};

verus! {

/// A queue, and how many events wait in it at the most.
pub struct QueueDecl {
    pub name: String,
    pub capacity: usize,
    pub fanout: bool,
}

/// How often a failed delivery is tried again, and how long is waited in between.
pub struct RetryDecl {
    pub max_attempts: u64,
    pub base: String,
    pub cap: String,
}

pub struct RetryView {
    pub max_attempts: u64,
    pub base: Seq<char>,
    pub cap: Seq<char>,
}

impl View for RetryDecl {
    type V = RetryView;

    open spec fn view(&self) -> RetryView {
        RetryView { max_attempts: self.max_attempts, base: self.base@, cap: self.cap@ }
    }
}

pub open spec fn retry_view(r: Option<RetryDecl>) -> Option<RetryView> {
    match r {
        Some(r) => Some(r@),
        None => None,
    }
}

/// A department: what it takes events from and puts events into.
pub struct DepartmentDecl {
    pub name: String,
    pub lua: String,
    pub owner_root: String,
    pub owner_namespace: String,
    pub consumes: Vec<String>,
    pub produces: Vec<String>,
    pub fanout: Vec<String>,
    pub published_seam: Vec<String>,
    pub ephemeral: Vec<String>,
    pub stall_window: String,
    pub graph_json: bool,
    pub retry: Option<RetryDecl>,
}

/// What makes a raiser raise events.
pub enum RaiserKind {
    Cron { interval: String },
    FileWatch { glob: String },
}

/// A raiser: a source of events for one queue.
pub struct RaiserDecl {
    pub name: String,
    pub kind: RaiserKind,
    pub produces: String,
}

pub struct Config {
    pub queue: Vec<QueueDecl>,
    pub raiser: Vec<RaiserDecl>,
    pub department: Vec<DepartmentDecl>,
    pub global_codex_processes: usize,
}

pub open spec fn department_names(ds: Seq<DepartmentDecl>) -> Seq<Seq<char>> {
    Seq::new(ds.len(), |i: int| ds[i].name@)
}

pub open spec fn raiser_names(rs: Seq<RaiserDecl>) -> Seq<Seq<char>> {
    Seq::new(rs.len(), |i: int| rs[i].name@)
}

pub open spec fn queue_names(qs: Seq<QueueDecl>) -> Seq<Seq<char>> {
    Seq::new(qs.len(), |i: int| qs[i].name@)
}

/// Names stay in order when one is put where it belongs.
pub proof fn lemma_insert_in_order(s: Seq<Seq<char>>, at: int, x: Seq<char>)
    requires
        ascending(s),
        0 <= at <= s.len(),
        forall|j: int| 0 <= j < at ==> text_less(#[trigger] s[j], x),
        at < s.len() ==> text_less(x, s[at]),
    ensures
        ascending(s.insert(at, x)),
{
    let t = s.insert(at, x);
    assert forall|j: int| at <= j < s.len() implies text_less(x, #[trigger] s[j]) by {
        if j > at {
            assert(text_less(s[at], s[j]));
            lemma_less_transitive(x, s[at], s[j]);
        }
    }
    assert forall|i: int, j: int| 0 <= i < j < t.len() implies text_less(
        #[trigger] t[i],
        #[trigger] t[j],
    ) by {
        let a = if i < at {
            i
        } else {
            i - 1
        };
        let b = if j < at {
            j
        } else {
            j - 1
        };
        if i == at {
            assert(t[j] == s[b]);
        } else if j == at {
            assert(t[i] == s[a]);
        } else {
            assert(t[i] == s[a] && t[j] == s[b]);
        }
    }
}

/// A name in a list that is in order stands where the names before it end.
pub proof fn lemma_not_in_order(s: Seq<Seq<char>>, at: int, x: Seq<char>)
    requires
        ascending(s),
        0 <= at <= s.len(),
        forall|j: int| 0 <= j < at ==> text_less(#[trigger] s[j], x),
        at < s.len() ==> text_less(x, s[at]),
    ensures
        !s.contains(x),
{
    if s.contains(x) {
        let k = choose|k: int| 0 <= k < s.len() && s[k] == x;
        lemma_less_irreflexive(x);
        if k > at {
            assert(text_less(s[at], s[k]));
            lemma_less_transitive(x, s[at], s[k]);
        }
    }
}

/// Puts a name into a list that is in order, unless it is there.
pub fn insert_name(names: &mut Vec<String>, name: &str)
    requires
        ascending(texts_view(old(names)@)),
    ensures
        ascending(texts_view(final(names)@)),
        forall|x: Seq<char>| #[trigger]
            texts_view(final(names)@).contains(x) <==> texts_view(old(names)@).contains(x) || x
                == name@,
{
    let ghost had = texts_view(names@);
    let mut at: usize = 0;
    while at < names.len() && less_text(names[at].as_str(), name)
        invariant
            had == texts_view(names@),
            at <= names@.len(),
            forall|j: int| 0 <= j < at ==> text_less(#[trigger] had[j], name@),
        decreases names@.len() - at,
    {
        assert(had[at as int] == names@[at as int]@);
        at = at + 1;
    }
    if at < names.len() && same_text(names[at].as_str(), name) {
        assert(had[at as int] == name@);
        return ;
    }
    proof {
        if at < had.len() {
            assert(had[at as int] == names@[at as int]@);
            lemma_less_total(had[at as int], name@);
        }
        lemma_insert_in_order(had, at as int, name@);
    }
    names.insert(at, copy_text(name));
    proof {
        assert(texts_view(names@) =~= had.insert(at as int, name@));
        assert forall|x: Seq<char>| #[trigger] texts_view(names@).contains(x) <==> had.contains(x)
            || x == name@ by {
            let now = had.insert(at as int, name@);
            if had.contains(x) {
                let k = choose|k: int| 0 <= k < had.len() && had[k] == x;
                if k < at {
                    assert(now[k] == x);
                } else {
                    assert(now[k + 1] == x);
                }
            }
            if x == name@ {
                assert(now[at as int] == x);
            }
            if now.contains(x) && x != name@ {
                let k = choose|k: int| 0 <= k < now.len() && now[k] == x;
                if k < at {
                    assert(had[k] == x);
                } else {
                    assert(had[k - 1] == x);
                }
            }
        }
    }
}

impl RetryDecl {
    pub fn copy(&self) -> (r: RetryDecl)
        ensures
            r@ == self@,
    {
        RetryDecl {
            max_attempts: self.max_attempts,
            base: copy_text(self.base.as_str()),
            cap: copy_text(self.cap.as_str()),
        }
    }
}

} // verus!
