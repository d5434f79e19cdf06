//! Change notification: a registry of listeners invoked, in registration
//! order, once per committed operation.
//!
//! The engine is single-threaded, so the registry is plain data: a counter
//! for fresh listener ids and a vector of registered listeners. A listener
//! is any implementation of [`ChangesListener`]; it runs synchronously on
//! the caller's thread.

use vstd::prelude::*;

use vstd::string::StringExecFns;

use crate::grid_engine::Change;

verus! {

/// The value handed to listeners: the ordered changes of one committed
/// operation.
#[derive(Clone, Debug, PartialEq, Eq, Hash)]
pub struct ChangesEventValue {
    changes: Vec<Change>,
}

impl ChangesEventValue {
    /// The ordered changes this event carries.
    pub closed spec fn changes_seq(self) -> Seq<Change> {
        self.changes@
    }

    /// Creates an event value carrying the given changes.
    pub fn new(changes: Vec<Change>) -> (r: ChangesEventValue)
        ensures
            r.changes_seq() == changes@,
    {
        ChangesEventValue { changes }
    }

    /// Returns a reference to the changes vector.
    pub fn changes(&self) -> (r: &Vec<Change>)
        ensures
            r@ == self.changes_seq(),
    {
        &self.changes
    }
}

/// A callback notified after each committed operation.
pub trait ChangesListener {
    /// Called once per committed operation, with its full change-set.
    fn on_changes(&self, value: &ChangesEventValue);
}

/// A registered listener: a callback under the unique id that
/// registration returned.
pub struct ListenerFunction {
    /// Unique identifier for the listener
    id: String,
    /// The callback run when changes occur
    function: Box<dyn ChangesListener>,
}

impl ListenerFunction {
    /// The listener's id, as registration returned it.
    pub closed spec fn id_view(self) -> Seq<char> {
        self.id@
    }

    /// Creates a listener entry from an id and a callback.
    pub fn new(id: String, function: Box<dyn ChangesListener>) -> (r: ListenerFunction)
        ensures
            r.id_view() == id@,
    {
        ListenerFunction { id, function }
    }
}

/// The decimal digits of `n`, most significant first.
pub open spec fn dec_digits(n: nat) -> Seq<char>
    decreases n,
{
    if n < 10 {
        seq![digit_char(n)]
    } else {
        dec_digits(n / 10).push(digit_char(n % 10))
    }
}

/// The character for one decimal digit.
pub open spec fn digit_char(d: nat) -> char {
    if d == 0 {
        '0'
    } else if d == 1 {
        '1'
    } else if d == 2 {
        '2'
    } else if d == 3 {
        '3'
    } else if d == 4 {
        '4'
    } else if d == 5 {
        '5'
    } else if d == 6 {
        '6'
    } else if d == 7 {
        '7'
    } else if d == 8 {
        '8'
    } else {
        '9'
    }
}

/// The id handed out for the `n`-th registered listener.
pub open spec fn listener_id(n: nat) -> Seq<char> {
    seq!['l', '_'] + dec_digits(n)
}

/// A decimal rendering has at least one digit.
proof fn lemma_dec_digits_len(n: nat)
    ensures
        dec_digits(n).len() >= 1,
    decreases n,
{
    if n >= 10 {
        lemma_dec_digits_len(n / 10);
    }
}

/// Distinct numbers have distinct decimal renderings.
proof fn lemma_dec_digits_injective(n: nat, m: nat)
    requires
        n != m,
    ensures
        dec_digits(n) != dec_digits(m),
    decreases n + m,
{
    if dec_digits(n) == dec_digits(m) {
        if n < 10 && m < 10 {
            assert(dec_digits(n)[0] == digit_char(n));
            assert(dec_digits(m)[0] == digit_char(m));
        } else if n < 10 {
            lemma_dec_digits_len(m / 10);
            assert(dec_digits(m).len() >= 2);
            assert(dec_digits(n).len() == 1);
        } else if m < 10 {
            lemma_dec_digits_len(n / 10);
            assert(dec_digits(n).len() >= 2);
            assert(dec_digits(m).len() == 1);
        } else {
            assert(dec_digits(n).last() == digit_char(n % 10));
            assert(dec_digits(m).last() == digit_char(m % 10));
            assert(n % 10 == m % 10);
            assert(dec_digits(n).drop_last() =~= dec_digits(n / 10));
            assert(dec_digits(m).drop_last() =~= dec_digits(m / 10));
            if n / 10 != m / 10 {
                lemma_dec_digits_injective(n / 10, m / 10);
            } else {
                assert(n == 10 * (n / 10) + n % 10) by {
                    vstd::arithmetic::div_mod::lemma_fundamental_div_mod(n as int, 10);
                };
                assert(m == 10 * (m / 10) + m % 10) by {
                    vstd::arithmetic::div_mod::lemma_fundamental_div_mod(m as int, 10);
                };
            }
        }
    }
}

/// Distinct registrations are handed distinct listener ids.
pub proof fn lemma_listener_id_injective(a: nat, b: nat)
    requires
        a != b,
    ensures
        listener_id(a) != listener_id(b),
{
    lemma_dec_digits_injective(a, b);
    let pre = seq!['l', '_'];
    if listener_id(a) == listener_id(b) {
        assert(listener_id(a).len() == pre.len() + dec_digits(a).len());
        assert(listener_id(b).len() == pre.len() + dec_digits(b).len());
        assert forall|i: int| 0 <= i < dec_digits(a).len() implies dec_digits(a)[i]
            == dec_digits(b)[i] by {
            assert((pre + dec_digits(a))[i + 2] == dec_digits(a)[i]);
            assert((pre + dec_digits(b))[i + 2] == dec_digits(b)[i]);
        }
        assert(dec_digits(a) =~= dec_digits(b));
    }
}

/// Appends the decimal digits of `n` to `s`.
fn append_decimal(s: &mut String, n: usize)
    ensures
        final(s)@ == old(s)@ + dec_digits(n as nat),
    decreases n,
{
    if n >= 10 {
        append_decimal(s, n / 10);
    }
    let d = n % 10;
    proof {
        reveal_strlit("0");
        reveal_strlit("1");
        reveal_strlit("2");
        reveal_strlit("3");
        reveal_strlit("4");
        reveal_strlit("5");
        reveal_strlit("6");
        reveal_strlit("7");
        reveal_strlit("8");
        reveal_strlit("9");
    }
    match d {
        0 => s.append("0"),
        1 => s.append("1"),
        2 => s.append("2"),
        3 => s.append("3"),
        4 => s.append("4"),
        5 => s.append("5"),
        6 => s.append("6"),
        7 => s.append("7"),
        8 => s.append("8"),
        _ => s.append("9"),
    }
    proof {
        if n < 10 {
            assert(old(s)@ + dec_digits(n as nat) =~= s@);
        } else {
            assert(old(s)@ + dec_digits(n as nat) =~= s@);
        }
    }
}

/// The listener registry: notifies every registered listener, in
/// registration order, of each committed operation.
pub struct GridEvents {
    /// Source of fresh listener ids
    listener_id_counter: usize,
    /// The registered change listeners
    changes_listeners: Vec<ListenerFunction>,
    /// How many events have been fired (specification-only)
    fired: Ghost<nat>,
}

impl GridEvents {
    /// How many listeners have ever been registered.
    pub closed spec fn counter(self) -> nat {
        self.listener_id_counter as nat
    }

    /// The registered listeners, in registration order.
    pub closed spec fn listeners(self) -> Seq<ListenerFunction> {
        self.changes_listeners@
    }

    /// How many events this registry has fired.
    pub closed spec fn fired_count(self) -> nat {
        self.fired@
    }

    /// Registry well-formedness: every stored listener carries an id
    /// that some past registration handed out.
    pub open spec fn wf(self) -> bool {
        forall|i: int|
            0 <= i < self.listeners().len() ==> exists|k: nat|
                1 <= k <= self.counter() && (#[trigger] self.listeners()[i]).id_view()
                    == listener_id(k)
    }

    /// How many listeners are currently registered.
    pub fn listeners_count(&self) -> (r: usize)
        ensures
            r == self.listeners().len(),
    {
        self.changes_listeners.len()
    }

    /// Registers a listener and returns its id, fresh among all ids
    /// this registry has ever handed out.
    pub fn add_changes_listener(&mut self, function: Box<dyn ChangesListener>) -> (r: String)
        requires
            old(self).counter() < usize::MAX,
            old(self).wf(),
        ensures
            final(self).wf(),
            final(self).fired_count() == old(self).fired_count(),
            final(self).counter() == old(self).counter() + 1,
            r@ == listener_id(final(self).counter()),
            final(self).listeners().len() == old(self).listeners().len() + 1,
            forall|i: int|
                0 <= i < old(self).listeners().len() ==> final(self).listeners()[i] == old(self).listeners()[i],
            final(self).listeners().last().id_view() == r@,
            forall|i: int|
                0 <= i < old(self).listeners().len() ==> (#[trigger] old(self).listeners()[i]).id_view() != r@,
    {
        self.listener_id_counter = self.listener_id_counter + 1;
        let mut id = String::new();
        proof {
            reveal_strlit("l_");
        }
        id.append("l_");
        append_decimal(&mut id, self.listener_id_counter);
        proof {
            assert(id@ =~= listener_id(self.listener_id_counter as nat));
        }
        let listener = ListenerFunction::new(id.clone(), function);
        self.changes_listeners.push(listener);
        proof {
            let c1 = self.listener_id_counter as nat;
            assert forall|i: int| 0 <= i < old(self).listeners().len() implies (#[trigger] old(
                self,
            ).listeners()[i]).id_view() != id@ by {
                let k = choose|k: nat|
                    1 <= k <= old(self).counter() && old(self).listeners()[i].id_view()
                        == listener_id(k);
                lemma_listener_id_injective(k, c1);
            }
        }
        id
    }

    /// Removes the first listener registered under `id` and returns its
    /// callback, or `None` when no listener has that id.
    pub fn remove_changes_listener(&mut self, id: &str) -> (r: Option<Box<dyn ChangesListener>>)
        requires
            old(self).wf(),
        ensures
            final(self).wf(),
            final(self).fired_count() == old(self).fired_count(),
            final(self).counter() == old(self).counter(),
            match r {
                Some(f) => {
                    exists|i: int|
                        {
                            &&& 0 <= i < old(self).listeners().len()
                            &&& (#[trigger] old(self).listeners()[i]).id_view() == id@
                            &&& forall|j: int|
                                0 <= j < i ==> (#[trigger] old(self).listeners()[j]).id_view()
                                    != id@
                            &&& final(self).listeners() == old(self).listeners().remove(i)
                        }
                },
                None => {
                    &&& forall|j: int|
                        0 <= j < old(self).listeners().len() ==> (#[trigger] old(self).listeners()[j]).id_view() != id@
                    &&& final(self).listeners() == old(self).listeners()
                },
            },
    {
        let id_string: String = id.to_owned();
        let mut i: usize = 0;
        while i < self.changes_listeners.len()
            invariant
                i <= self.changes_listeners.len(),
                id_string@ == id@,
                old(self).wf(),
                *self == *old(self),
                forall|j: int|
                    0 <= j < i ==> (#[trigger] old(self).listeners()[j]).id_view() != id@,
            decreases self.changes_listeners.len() - i,
        {
            if self.changes_listeners[i].id == id_string {
                let ghost w_i = i as int;
                let listener = self.changes_listeners.remove(i);
                proof {
                    assert(0 <= w_i < old(self).listeners().len());
                    assert(old(self).listeners()[w_i].id_view() == id@);
                    assert(forall|j: int|
                        0 <= j < w_i ==> (#[trigger] old(self).listeners()[j]).id_view() != id@);
                    assert(self.listeners() == old(self).listeners().remove(w_i));
                    assert forall|j: int| 0 <= j < self.listeners().len() implies exists|k: nat|
                        1 <= k <= self.counter() && (#[trigger] self.listeners()[j]).id_view()
                            == listener_id(k) by {
                        let jj = if j < w_i {
                            j
                        } else {
                            j + 1
                        };
                        assert(self.listeners()[j] == old(self).listeners()[jj]);
                        assert(exists|k: nat|
                            1 <= k <= old(self).counter() && (#[trigger] old(self).listeners()[jj].id_view())
                                == listener_id(k));
                    }
                }
                return Some(listener.function);
            }
            i = i + 1;
        }
        None
    }

    /// Notifies every registered listener, in registration order, and
    /// counts the firing.
    pub fn trigger_changes_event(&mut self, value: &ChangesEventValue)
        ensures
            final(self).listeners() == old(self).listeners(),
            final(self).counter() == old(self).counter(),
            final(self).fired_count() == old(self).fired_count() + 1,
    {
        let mut i: usize = 0;
        while i < self.changes_listeners.len()
            invariant
                i <= self.changes_listeners.len(),
                *self == *old(self),
            decreases self.changes_listeners.len() - i,
        {
            self.changes_listeners[i].function.on_changes(value);
            i = i + 1;
        }
        proof {
            self.fired@ = self.fired@ + 1;
        }
    }
}

impl Default for GridEvents {
    /// An empty registry: no listeners, counter at zero.
    fn default() -> (r: GridEvents)
        ensures
            r.wf(),
            r.counter() == 0,
            r.listeners().len() == 0,
            r.fired_count() == 0,
    {
        GridEvents { listener_id_counter: 0, changes_listeners: Vec::new(), fired: Ghost(0) }
    }
}

} // verus!
