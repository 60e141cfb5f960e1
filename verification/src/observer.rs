//! The observer pattern: a subject keeps data and a list of observers, and
//! notifying the observers hands each the data and appends what it answers.
use vstd::prelude::*;
use vstd::laws_eq::obeys_concrete_eq;

verus! {

/// What observes a subject: given the subject's data, it answers values to
/// append to it.
pub trait IObserver {
    /// What the observer answers when handed the data `new`.
    spec fn answer(&self, new: Seq<i32>) -> Seq<i32>;

    fn update(&self, new: Vec<i32>) -> (res: Vec<i32>)
        ensures
            res@ == self.answer(new@),
    ;
}

/// The data after the observers `obs`, in order, were each handed the data
/// and their answers appended.
pub open spec fn notify_spec<T: IObserver>(obs: Seq<T>, data: Seq<i32>) -> Seq<i32>
    decreases obs.len(),
{
    if obs.len() == 0 {
        data
    } else {
        let d = notify_spec(obs.drop_last(), data);
        d + obs.last().answer(d)
    }
}

/// What observers can be attached to and notified by.
pub trait ISubject<'a, T: IObserver> {
    fn attach(&mut self, observer: &'a T);

    fn detach(&mut self, observer: &'a T);

    fn notify_observers(&mut self);

    fn add_data(&mut self, data: i32);
}

/// A subject: its observers, in order of attachment, and its data.
pub struct Subject<'a, T: IObserver> {
    observers: Vec<&'a T>,
    data: Vec<i32>,
}

impl<'a, T: IObserver> Subject<'a, T> {
    /// The observers, in order.
    pub closed spec fn observers(&self) -> Seq<T> {
        self.observers@.map_values(|o: &'a T| *o)
    }

    /// The data, in order.
    pub closed spec fn data(&self) -> Seq<i32> {
        self.data@
    }
}

/// The observers without the first one equal to `x`.
pub open spec fn without_first<T>(s: Seq<T>, x: T) -> Seq<T>
    decreases s.len(),
{
    if s.len() == 0 {
        s
    } else if s[0] == x {
        s.drop_first()
    } else {
        seq![s[0]] + without_first(s.drop_first(), x)
    }
}

impl<'a, T: IObserver + PartialEq> Subject<'a, T> {
    /// A subject with no observer and no data.
    pub fn new() -> (res: Subject<'a, T>)
        ensures
            res.observers() == Seq::<T>::empty(),
            res.data() == Seq::<i32>::empty(),
    {
        let res = Subject { observers: Vec::new(), data: Vec::new() };
        assert(res.observers() =~= Seq::<T>::empty());
        res
    }
}

impl<'a, T: IObserver + PartialEq> ISubject<'a, T> for Subject<'a, T> {
    /// Attaches an observer after the others.
    fn attach(&mut self, observer: &'a T)
        ensures
            final(self).observers() == old(self).observers().push(*observer),
            final(self).data() == old(self).data(),
    {
        self.observers.push(observer);
        assert(self.observers() =~= old(self).observers().push(*observer));
    }

    /// Detaches the first attached observer equal to `observer`, if any.
    fn detach(&mut self, observer: &'a T)
        ensures
            final(self).data() == old(self).data(),
            obeys_concrete_eq::<T>() ==> final(self).observers() == without_first(old(self).observers(), *observer),
    {
        let ghost obs = self.observers();
        let mut i: usize = 0;
        assert(obs.skip(0) =~= obs);
        assert(obs.take(0) + without_first(obs, *observer) =~= without_first(obs, *observer));
        while i < self.observers.len()
            invariant
                i <= self.observers@.len(),
                obs == self.observers(),
                self.data() == old(self).data(),
                obs == old(self).observers(),
                obeys_concrete_eq::<T>() ==> forall|k: int| 0 <= k < i ==> obs[k] != *observer,
                obeys_concrete_eq::<T>() ==> without_first(obs, *observer) == obs.take(i as int) + without_first(
                    obs.skip(i as int),
                    *observer,
                ),
            decreases self.observers@.len() - i,
        {
            proof {
                let rest = obs.skip(i as int);
                assert(rest[0] == obs[i as int]);
                assert(rest.drop_first() =~= obs.skip(i + 1));
                assert(obs.take(i + 1) =~= obs.take(i as int).push(obs[i as int]));
            }
            let same = *self.observers[i] == *observer;
            proof {
                if obeys_concrete_eq::<T>() {
                    reveal(obeys_concrete_eq);
                }
            }
            if same {
                self.observers.remove(i);
                proof {
                    if obeys_concrete_eq::<T>() {
                        assert(self.observers() =~= obs.take(i as int) + obs.skip(i + 1));
                    }
                }
                return;
            }
            proof {
                if obeys_concrete_eq::<T>() {
                    let rest = obs.skip(i as int);
                    assert(without_first(rest, *observer) == seq![rest[0]] + without_first(rest.drop_first(), *observer));
                    assert(obs.take(i as int) + (seq![obs[i as int]] + without_first(obs.skip(i + 1), *observer))
                        =~= obs.take(i + 1) + without_first(obs.skip(i + 1), *observer));
                }
            }
            i = i + 1;
        }
        proof {
            if obeys_concrete_eq::<T>() {
                assert(obs.skip(obs.len() as int) =~= Seq::<T>::empty());
                assert(obs.take(obs.len() as int) =~= obs);
            }
        }
    }

    /// Hands the data to each observer in order, appending each answer to
    /// the data before the next observer is asked.
    fn notify_observers(&mut self)
        ensures
            final(self).observers() == old(self).observers(),
            final(self).data() == notify_spec(old(self).observers(), old(self).data()),
    {
        let ghost obs = self.observers();
        let ghost d0 = self.data();
        let mut i: usize = 0;
        assert(obs.take(0) =~= Seq::<T>::empty());
        while i < self.observers.len()
            invariant
                i <= self.observers@.len(),
                obs == self.observers(),
                obs == old(self).observers(),
                d0 == old(self).data(),
                self.data() == notify_spec(obs.take(i as int), d0),
            decreases self.observers@.len() - i,
        {
            let ghost before = self.data();
            proof {
                assert(obs.take(i + 1).drop_last() =~= obs.take(i as int));
                assert(obs.take(i + 1).last() == obs[i as int]);
                assert(*self.observers@[i as int] == obs[i as int]);
            }
            let mut copy: Vec<i32> = Vec::new();
            let mut k: usize = 0;
            while k < self.data.len()
                invariant
                    k <= self.data@.len(),
                    copy@ == self.data@.take(k as int),
                decreases self.data@.len() - k,
            {
                copy.push(self.data[k]);
                assert(self.data@.take(k + 1) =~= self.data@.take(k as int).push(self.data@[k as int]));
                k = k + 1;
            }
            assert(copy@ =~= before);
            let updates_received = self.observers[i].update(copy);
            let mut j: usize = 0;
            while j < updates_received.len()
                invariant
                    j <= updates_received@.len(),
                    obs == self.observers(),
                    self.data() == before + updates_received@.take(j as int),
                decreases updates_received@.len() - j,
            {
                self.data.push(updates_received[j]);
                assert(updates_received@.take(j + 1) =~= updates_received@.take(j as int).push(updates_received@[j as int]));
                j = j + 1;
            }
            assert(updates_received@.take(updates_received@.len() as int) =~= updates_received@);
            i = i + 1;
        }
        assert(obs.take(obs.len() as int) =~= obs);
    }

    /// Appends a value to the data.
    fn add_data(&mut self, data: i32)
        ensures
            final(self).observers() == old(self).observers(),
            final(self).data() == old(self).data().push(data),
    {
        self.data.push(data);
    }
}

/// An observer that answers its own value.
#[derive(Debug, PartialEq, Eq, Structural)]
pub struct ConcreteObserver {
    pub id: i32,
    pub data: i32,
}

impl IObserver for ConcreteObserver {
    open spec fn answer(&self, new: Seq<i32>) -> Seq<i32> {
        seq![self.data]
    }

    fn update(&self, new: Vec<i32>) -> (res: Vec<i32>) {
        let res = vec![self.data];
        assert(res@ =~= seq![self.data]);
        res
    }
}

impl ConcreteObserver {
    /// Sets the value that the observer answers.
    pub fn update_data(&mut self, new_data: i32)
        ensures
            final(self).data == new_data,
            final(self).id == old(self).id,
    {
        self.data = new_data;
    }
}

/// Attaching an observer that is not attached and then detaching it gives
/// back the observers as they were.
pub proof fn law_detach_after_attach<T>(obs: Seq<T>, x: T)
    requires
        !obs.contains(x),
    ensures
        without_first(obs.push(x), x) == obs,
    decreases obs.len(),
{
    let s = obs.push(x);
    if obs.len() == 0 {
        assert(s[0] == x);
        assert(s.drop_first() =~= obs);
    } else {
        assert(s[0] == obs[0]);
        assert(obs[0] != x);
        assert(!obs.drop_first().contains(x)) by {
            if obs.drop_first().contains(x) {
                let w = choose|w: int| 0 <= w < obs.drop_first().len() && obs.drop_first()[w] == x;
                assert(obs[w + 1] == x);
            }
        }
        law_detach_after_attach(obs.drop_first(), x);
        assert(s.drop_first() =~= obs.drop_first().push(x));
        assert(seq![obs[0]] + obs.drop_first() =~= obs);
    }
}

} // verus!
