//! The observers of a download, and how they are told.
//!
//! The hooks of a list are always told in the order of the list. Where a call
//! reaches nothing but its hook, as in [`tell_finish`], a contract has one call for
//! each hook, and the order among the hooks cannot be seen in it. It can be seen
//! in those of [`run_hooks`] and [`try_run_hooks`], through which all hooks are
//! told, by the state that goes from one call to the next.
use reqwest::header::{HeaderMap, HeaderValue};
use vstd::prelude::*;

use crate::headers::{header_entries, headers_clone};

verus! {

/// The error of an observer.
#[derive(Clone, Debug)]
pub struct HookError {
    pub message: String,
}

/// An observer of a download. Each method is told of one kind of event; one
/// that is not overridden leaves the observer as it is and reports no error.
#[allow(unused_variables)]
pub trait EventsHandler {
    fn on_resume_download(&mut self, bytes_on_disk: u64)
        default_ensures
            &*final(self) == &*old(self),
    {
    }

    fn on_headers(&mut self, headers: HeaderMap<HeaderValue>)
        default_ensures
            &*final(self) == &*old(self),
    {
    }

    fn on_content(&mut self, content: &[u8]) -> (r: Result<(), HookError>)
        default_ensures
            &*final(self) == &*old(self),
            r is Ok,
    {
        Ok(())
    }

    fn on_concurrent_content(&mut self, content: (u64, u64, &[u8])) -> (r: Result<(), HookError>)
        default_ensures
            &*final(self) == &*old(self),
            r is Ok,
    {
        Ok(())
    }

    fn on_content_length(&mut self, ct_len: u64)
        default_ensures
            &*final(self) == &*old(self),
    {
    }

    fn on_ftp_content_length(&mut self, ct_len: Option<u64>)
        default_ensures
            &*final(self) == &*old(self),
    {
    }

    fn on_success_status(&self) {
    }

    fn on_failure_status(&self, status_code: i32) {
    }

    fn on_finish(&mut self)
        default_ensures
            &*final(self) == &*old(self),
    {
    }

    fn on_max_retries(&mut self)
        default_ensures
            &*final(self) == &*old(self),
    {
    }

    fn on_server_supports_resume(&mut self)
        default_ensures
            &*final(self) == &*old(self),
    {
    }
}

/// Calls `f` with each hook, in the order of the list.
///
/// `state` is what `f` keeps from one call to the next, and by it the order of
/// the calls shows. The contract speaks of the calls that were made, each as the
/// two borrows that were handed to `f`, and of the states that `state` went
/// through: the call with the hook of number `i` took the state of number `i` to
/// the next one, and the hook from what it was before to what it is now.
pub fn run_hooks<H, S, F: Fn(&mut S, &mut H)>(hooks: &mut Vec<H>, state: &mut S, f: F)
    requires
        forall|s: &mut S, h: &mut H| call_requires(f, (s, h)),
    ensures
        final(hooks)@.len() == old(hooks)@.len(),
        exists|calls: Seq<(&mut S, &mut H)>, states: Seq<S>|
            {
                &&& #[trigger] calls.len() == old(hooks)@.len()
                &&& #[trigger] states.len() == calls.len() + 1
                &&& states[0] == *old(state)
                &&& states.last() == *final(state)
                &&& forall|i: int|
                    #![trigger calls[i]]
                    #![trigger final(hooks)@[i]]
                    0 <= i < calls.len() ==> {
                        &&& *calls[i].0 == states[i]
                        &&& *final(calls[i].0) == states[i + 1]
                        &&& *calls[i].1 == old(hooks)@[i]
                        &&& *final(calls[i].1) == final(hooks)@[i]
                        &&& call_ensures(f, calls[i], ())
                    }
            },
{
    let ghost before = hooks@;
    let ghost start = *state;
    let mut i: usize = 0;
    assert(Seq::<(&mut S, &mut H)>::empty().len() == 0);
    assert(seq![start].len() == 1);
    while i < hooks.len()
        invariant
            i <= hooks.len(),
            before == old(hooks)@,
            start == *old(state),
            hooks@.len() == before.len(),
            forall|s: &mut S, h: &mut H| call_requires(f, (s, h)),
            forall|j: int| i <= j < before.len() ==> hooks@[j] == before[j],
            exists|calls: Seq<(&mut S, &mut H)>, states: Seq<S>|
                {
                    &&& #[trigger] calls.len() == i
                    &&& #[trigger] states.len() == i + 1
                    &&& states[0] == start
                    &&& states.last() == *state
                    &&& forall|j: int|
                        0 <= j < i ==> {
                            &&& *(#[trigger] calls[j]).0 == states[j]
                            &&& *final(calls[j].0) == states[j + 1]
                            &&& *calls[j].1 == before[j]
                            &&& *final(calls[j].1) == hooks@[j]
                            &&& call_ensures(f, calls[j], ())
                        }
                },
        decreases hooks.len() - i,
    {
        let ghost prev = hooks@;
        let ghost from = *state;
        f(state, &mut hooks[i]);
        assert(exists|s: &mut S, h: &mut H|
            *s == from && *final(s) == *state && *h == before[i as int] && *final(h)
                == hooks@[i as int] && #[trigger] call_ensures(f, (s, h), ()));
        proof {
            let (calls, states) = choose|calls: Seq<(&mut S, &mut H)>, states: Seq<S>|
                {
                    &&& #[trigger] calls.len() == i
                    &&& #[trigger] states.len() == i + 1
                    &&& states[0] == start
                    &&& states.last() == from
                    &&& forall|j: int|
                        0 <= j < i ==> {
                            &&& *(#[trigger] calls[j]).0 == states[j]
                            &&& *final(calls[j].0) == states[j + 1]
                            &&& *calls[j].1 == before[j]
                            &&& *final(calls[j].1) == prev[j]
                            &&& call_ensures(f, calls[j], ())
                        }
                };
            let (s, h) = choose|s: &mut S, h: &mut H|
                *s == from && *final(s) == *state && *h == before[i as int] && *final(h)
                    == hooks@[i as int] && #[trigger] call_ensures(f, (s, h), ());
            let longer = calls.push((s, h));
            let passed = states.push(*state);
            assert(longer.len() == i + 1);
            assert(passed.len() == i + 2);
            assert(forall|j: int| 0 <= j < i ==> longer[j] == calls[j]);
            assert(forall|j: int| 0 <= j < i + 1 ==> passed[j] == states[j]);
            assert(forall|j: int| 0 <= j < i ==> hooks@[j] == prev[j]);
            assert(longer[i as int] == (s, h));
            assert(*final(longer[i as int].1) == hooks@[i as int]);
        }
        i = i + 1;
    }
}

/// Calls `f` with one hook after the other, in the order of the list, until one
/// call reports an error, and gives that error back.
///
/// `state` is what `f` keeps from one call to the next. The contract speaks of
/// the calls that were made, each as the two borrows that were handed to `f` and
/// what `f` returned, and of the states that `state` went through, as that of
/// [`run_hooks`] does. The calls were made with the first hooks; only the last
/// can have failed, and without a failure there was one for each hook. A hook
/// that was not called is as it was.
pub fn try_run_hooks<H, S, E, F: Fn(&mut S, &mut H) -> Result<(), E>>(
    hooks: &mut Vec<H>,
    state: &mut S,
    f: F,
) -> (r: Result<(), E>)
    requires
        forall|s: &mut S, h: &mut H| call_requires(f, (s, h)),
    ensures
        final(hooks)@.len() == old(hooks)@.len(),
        exists|calls: Seq<((&mut S, &mut H), Result<(), E>)>, states: Seq<S>|
            {
                &&& #[trigger] calls.len() <= old(hooks)@.len()
                &&& #[trigger] states.len() == calls.len() + 1
                &&& states[0] == *old(state)
                &&& states.last() == *final(state)
                &&& forall|i: int|
                    #![trigger calls[i]]
                    #![trigger final(hooks)@[i]]
                    0 <= i < calls.len() ==> {
                        &&& *calls[i].0.0 == states[i]
                        &&& *final(calls[i].0.0) == states[i + 1]
                        &&& *calls[i].0.1 == old(hooks)@[i]
                        &&& *final(calls[i].0.1) == final(hooks)@[i]
                        &&& call_ensures(f, calls[i].0, calls[i].1)
                        &&& i < calls.len() - 1 ==> calls[i].1 is Ok
                    }
                &&& forall|i: int|
                    calls.len() <= i < old(hooks)@.len() ==> #[trigger] final(hooks)@[i] == old(
                        hooks,
                    )@[i]
                &&& if calls.len() > 0 && calls.last().1 is Err {
                    r == calls.last().1
                } else {
                    r is Ok && calls.len() == old(hooks)@.len()
                }
            },
{
    let ghost before = hooks@;
    let ghost start = *state;
    let mut i: usize = 0;
    assert(Seq::<((&mut S, &mut H), Result<(), E>)>::empty().len() == 0);
    assert(seq![start].len() == 1);
    while i < hooks.len()
        invariant
            i <= hooks.len(),
            before == old(hooks)@,
            start == *old(state),
            hooks@.len() == before.len(),
            forall|s: &mut S, h: &mut H| call_requires(f, (s, h)),
            forall|j: int| i <= j < before.len() ==> hooks@[j] == before[j],
            exists|calls: Seq<((&mut S, &mut H), Result<(), E>)>, states: Seq<S>|
                {
                    &&& #[trigger] calls.len() == i
                    &&& #[trigger] states.len() == i + 1
                    &&& states[0] == start
                    &&& states.last() == *state
                    &&& forall|j: int|
                        0 <= j < i ==> {
                            &&& *(#[trigger] calls[j]).0.0 == states[j]
                            &&& *final(calls[j].0.0) == states[j + 1]
                            &&& *calls[j].0.1 == before[j]
                            &&& *final(calls[j].0.1) == hooks@[j]
                            &&& call_ensures(f, calls[j].0, calls[j].1)
                            &&& calls[j].1 is Ok
                        }
                },
        decreases hooks.len() - i,
    {
        let ghost prev = hooks@;
        let ghost from = *state;
        let r = f(state, &mut hooks[i]);
        assert(exists|s: &mut S, h: &mut H|
            *s == from && *final(s) == *state && *h == before[i as int] && *final(h)
                == hooks@[i as int] && #[trigger] call_ensures(f, (s, h), r));
        proof {
            let (calls, states) = choose|
                calls: Seq<((&mut S, &mut H), Result<(), E>)>,
                states: Seq<S>,
            |
                {
                    &&& #[trigger] calls.len() == i
                    &&& #[trigger] states.len() == i + 1
                    &&& states[0] == start
                    &&& states.last() == from
                    &&& forall|j: int|
                        0 <= j < i ==> {
                            &&& *(#[trigger] calls[j]).0.0 == states[j]
                            &&& *final(calls[j].0.0) == states[j + 1]
                            &&& *calls[j].0.1 == before[j]
                            &&& *final(calls[j].0.1) == prev[j]
                            &&& call_ensures(f, calls[j].0, calls[j].1)
                            &&& calls[j].1 is Ok
                        }
                };
            let (s, h) = choose|s: &mut S, h: &mut H|
                *s == from && *final(s) == *state && *h == before[i as int] && *final(h)
                    == hooks@[i as int] && #[trigger] call_ensures(f, (s, h), r);
            let longer = calls.push(((s, h), r));
            let passed = states.push(*state);
            assert(longer.len() == i + 1);
            assert(passed.len() == i + 2);
            assert(forall|j: int| 0 <= j < i ==> longer[j] == calls[j]);
            assert(forall|j: int| 0 <= j < i + 1 ==> passed[j] == states[j]);
            assert(forall|j: int| 0 <= j < i ==> hooks@[j] == prev[j]);
            assert(longer[i as int] == ((s, h), r));
            assert(*final(longer[i as int].0.1) == hooks@[i as int]);
        }
        if let Err(e) = r {
            return Err(e);
        }
        i = i + 1;
    }
    Ok(())
}

/// Tells one hook after the other, each once, that the server can resume. The
/// contract speaks of the calls of `on_server_supports_resume` that were made.
pub fn tell_supports_resume<H: EventsHandler>(hooks: &mut Vec<H>)
    ensures
        final(hooks)@.len() == old(hooks)@.len(),
        exists|calls: Seq<&mut H>|
            {
                &&& #[trigger] calls.len() == old(hooks)@.len()
                &&& forall|i: int|
                    #![trigger calls[i]]
                    #![trigger final(hooks)@[i]]
                    0 <= i < calls.len() ==> {
                        &&& *calls[i] == old(hooks)@[i]
                        &&& *final(calls[i]) == final(hooks)@[i]
                        &&& call_ensures(H::on_server_supports_resume, (calls[i],), ())
                    }
            },
{
    tell(hooks, H::on_server_supports_resume)
}

/// Tells one hook after the other, each once, all the headers that the server
/// answered with. The contract speaks of the calls of `on_headers` that were
/// made, each with a copy of the headers.
pub fn tell_headers<H: EventsHandler>(hooks: &mut Vec<H>, headers: &HeaderMap<HeaderValue>)
    ensures
        final(hooks)@.len() == old(hooks)@.len(),
        exists|calls: Seq<(&mut H, HeaderMap<HeaderValue>)>|
            {
                &&& #[trigger] calls.len() == old(hooks)@.len()
                &&& forall|i: int|
                    #![trigger calls[i]]
                    #![trigger final(hooks)@[i]]
                    0 <= i < calls.len() ==> {
                        &&& *calls[i].0 == old(hooks)@[i]
                        &&& *final(calls[i].0) == final(hooks)@[i]
                        &&& header_entries(calls[i].1) == header_entries(*headers)
                        &&& call_ensures(H::on_headers, calls[i], ())
                    }
            },
{
    let call = |_none: &mut (), hook: &mut H|
        ensures
            exists|h: &mut H, copy: HeaderMap<HeaderValue>|
                {
                    &&& *h == *old(hook)
                    &&& *final(h) == *final(hook)
                    &&& header_entries(copy) == header_entries(*headers)
                    &&& #[trigger] call_ensures(H::on_headers, (h, copy), ())
                },
        { hook.on_headers(headers_clone(headers)) };
    let ghost before = hooks@;
    run_hooks(hooks, &mut (), call);
    proof {
        let (calls, states) = choose|calls: Seq<(&mut (), &mut H)>, states: Seq<()>|
            {
                &&& #[trigger] calls.len() == before.len()
                &&& #[trigger] states.len() == calls.len() + 1
                &&& forall|i: int|
                    0 <= i < calls.len() ==> {
                        &&& *(#[trigger] calls[i]).1 == before[i]
                        &&& *final(calls[i].1) == hooks@[i]
                        &&& call_ensures(call, calls[i], ())
                    }
            };
        let told = Seq::new(
            calls.len(),
            |i: int|
                choose|h: &mut H, copy: HeaderMap<HeaderValue>|
                    {
                        &&& *h == *calls[i].1
                        &&& *final(h) == *final(calls[i].1)
                        &&& header_entries(copy) == header_entries(*headers)
                        &&& #[trigger] call_ensures(H::on_headers, (h, copy), ())
                    },
        );
        assert(told.len() == calls.len());
        assert forall|i: int| 0 <= i < told.len() implies {
            &&& *(#[trigger] told[i]).0 == before[i]
            &&& *final(told[i].0) == hooks@[i]
            &&& header_entries(told[i].1) == header_entries(*headers)
            &&& call_ensures(H::on_headers, told[i], ())
        } by {
            assert(call_ensures(call, calls[i], ()));
        }
    }
}

/// Tells one hook after the other, each once, the length of a file that is
/// fetched over FTP, or that it is not known. The contract speaks of the calls of
/// `on_ftp_content_length` that were made.
pub fn tell_ftp_content_length<H: EventsHandler>(hooks: &mut Vec<H>, ct_len: Option<u64>)
    ensures
        final(hooks)@.len() == old(hooks)@.len(),
        exists|calls: Seq<&mut H>|
            {
                &&& #[trigger] calls.len() == old(hooks)@.len()
                &&& forall|i: int|
                    #![trigger calls[i]]
                    #![trigger final(hooks)@[i]]
                    0 <= i < calls.len() ==> {
                        &&& *calls[i] == old(hooks)@[i]
                        &&& *final(calls[i]) == final(hooks)@[i]
                        &&& call_ensures(H::on_ftp_content_length, (calls[i], ct_len), ())
                    }
            },
{
    let call = |_none: &mut (), hook: &mut H|
        ensures
            exists|h: &mut H|
                *h == *old(hook) && *final(h) == *final(hook) && #[trigger] call_ensures(
                    H::on_ftp_content_length,
                    (h, ct_len),
                    (),
                ),
        { hook.on_ftp_content_length(ct_len) };
    let ghost before = hooks@;
    run_hooks(hooks, &mut (), call);
    proof {
        let (calls, states) = choose|calls: Seq<(&mut (), &mut H)>, states: Seq<()>|
            {
                &&& #[trigger] calls.len() == before.len()
                &&& #[trigger] states.len() == calls.len() + 1
                &&& forall|i: int|
                    0 <= i < calls.len() ==> {
                        &&& *(#[trigger] calls[i]).1 == before[i]
                        &&& *final(calls[i].1) == hooks@[i]
                        &&& call_ensures(call, calls[i], ())
                    }
            };
        let told = Seq::new(
            calls.len(),
            |i: int|
                choose|h: &mut H|
                    *h == *calls[i].1 && *final(h) == *final(calls[i].1)
                        && #[trigger] call_ensures(H::on_ftp_content_length, (h, ct_len), ()),
        );
        assert(told.len() == calls.len());
        assert forall|i: int| 0 <= i < told.len() implies {
            &&& *(#[trigger] told[i]) == before[i]
            &&& *final(told[i]) == hooks@[i]
            &&& call_ensures(H::on_ftp_content_length, (told[i], ct_len), ())
        } by {
            assert(call_ensures(call, calls[i], ()));
        }
    }
}

/// Tells one hook after the other, each once, that there were too many failures.
/// The contract speaks of the calls of `on_max_retries` that were made.
pub fn tell_max_retries<H: EventsHandler>(hooks: &mut Vec<H>)
    ensures
        final(hooks)@.len() == old(hooks)@.len(),
        exists|calls: Seq<&mut H>|
            {
                &&& #[trigger] calls.len() == old(hooks)@.len()
                &&& forall|i: int|
                    #![trigger calls[i]]
                    #![trigger final(hooks)@[i]]
                    0 <= i < calls.len() ==> {
                        &&& *calls[i] == old(hooks)@[i]
                        &&& *final(calls[i]) == final(hooks)@[i]
                        &&& call_ensures(H::on_max_retries, (calls[i],), ())
                    }
            },
{
    tell(hooks, H::on_max_retries)
}

/// Tells one hook after the other, each once, that the download is over. The
/// contract speaks of the calls of `on_finish` that were made.
pub fn tell_finish<H: EventsHandler>(hooks: &mut Vec<H>)
    ensures
        final(hooks)@.len() == old(hooks)@.len(),
        exists|calls: Seq<&mut H>|
            {
                &&& #[trigger] calls.len() == old(hooks)@.len()
                &&& forall|i: int|
                    #![trigger calls[i]]
                    #![trigger final(hooks)@[i]]
                    0 <= i < calls.len() ==> {
                        &&& *calls[i] == old(hooks)@[i]
                        &&& *final(calls[i]) == final(hooks)@[i]
                        &&& call_ensures(H::on_finish, (calls[i],), ())
                    }
            },
{
    tell(hooks, H::on_finish)
}

fn tell<H, F: Copy + Fn(&mut H)>(hooks: &mut Vec<H>, f: F)
    requires
        forall|h: &mut H| call_requires(f, (h,)),
    ensures
        final(hooks)@.len() == old(hooks)@.len(),
        exists|calls: Seq<&mut H>|
            {
                &&& #[trigger] calls.len() == old(hooks)@.len()
                &&& forall|i: int|
                    #![trigger calls[i]]
                    #![trigger final(hooks)@[i]]
                    0 <= i < calls.len() ==> {
                        &&& *calls[i] == old(hooks)@[i]
                        &&& *final(calls[i]) == final(hooks)@[i]
                        &&& call_ensures(f, (calls[i],), ())
                    }
            },
{
    let call = |_none: &mut (), hook: &mut H|
        ensures
            exists|h: &mut H|
                *h == *old(hook) && *final(h) == *final(hook) && #[trigger] call_ensures(
                    f,
                    (h,),
                    (),
                ),
        { f(hook) };
    let ghost before = hooks@;
    run_hooks(hooks, &mut (), call);
    proof {
        let (calls, states) = choose|calls: Seq<(&mut (), &mut H)>, states: Seq<()>|
            {
                &&& #[trigger] calls.len() == before.len()
                &&& #[trigger] states.len() == calls.len() + 1
                &&& forall|i: int|
                    0 <= i < calls.len() ==> {
                        &&& *(#[trigger] calls[i]).1 == before[i]
                        &&& *final(calls[i].1) == hooks@[i]
                        &&& call_ensures(call, calls[i], ())
                    }
            };
        let told = Seq::new(
            calls.len(),
            |i: int|
                choose|h: &mut H|
                    *h == *calls[i].1 && *final(h) == *final(calls[i].1)
                        && #[trigger] call_ensures(f, (h,), ()),
        );
        assert(told.len() == calls.len());
        assert forall|i: int| 0 <= i < told.len() implies {
            &&& *(#[trigger] told[i]) == before[i]
            &&& *final(told[i]) == hooks@[i]
            &&& call_ensures(f, (told[i],), ())
        } by {
            assert(call_ensures(call, calls[i], ()));
        }
    }
}

/// Hands `contents` to one hook after the other until one reports an error,
/// and gives that error back.
///
/// The contract speaks of the calls of `on_content` that were made, as that of
/// [`try_run_hooks`] does.
pub fn send_content<H: EventsHandler>(hooks: &mut Vec<H>, contents: &[u8]) -> (r: Result<
    (),
    HookError,
>)
    ensures
        final(hooks)@.len() == old(hooks)@.len(),
        exists|calls: Seq<(&mut H, Result<(), HookError>)>|
            {
                &&& #[trigger] calls.len() <= old(hooks)@.len()
                &&& forall|i: int|
                    #![trigger calls[i]]
                    #![trigger final(hooks)@[i]]
                    0 <= i < calls.len() ==> {
                        &&& *calls[i].0 == old(hooks)@[i]
                        &&& *final(calls[i].0) == final(hooks)@[i]
                        &&& call_ensures(H::on_content, (calls[i].0, contents), calls[i].1)
                        &&& i < calls.len() - 1 ==> calls[i].1 is Ok
                    }
                &&& forall|i: int|
                    calls.len() <= i < old(hooks)@.len() ==> #[trigger] final(hooks)@[i] == old(
                        hooks,
                    )@[i]
                &&& if calls.len() > 0 && calls.last().1 is Err {
                    r == calls.last().1
                } else {
                    r is Ok && calls.len() == old(hooks)@.len()
                }
            },
{
    try_hand(hooks, contents, H::on_content)
}

/// Hands a piece of the content, as its number of bytes, its offset and its
/// bytes, to one hook after the other until one reports an error, and gives that
/// error back.
///
/// The contract speaks of the calls of `on_concurrent_content` that were made,
/// as that of [`try_run_hooks`] does.
pub fn send_concurrent_content<H: EventsHandler>(
    hooks: &mut Vec<H>,
    content: (u64, u64, &[u8]),
) -> (r: Result<(), HookError>)
    ensures
        final(hooks)@.len() == old(hooks)@.len(),
        exists|calls: Seq<(&mut H, Result<(), HookError>)>|
            {
                &&& #[trigger] calls.len() <= old(hooks)@.len()
                &&& forall|i: int|
                    #![trigger calls[i]]
                    #![trigger final(hooks)@[i]]
                    0 <= i < calls.len() ==> {
                        &&& *calls[i].0 == old(hooks)@[i]
                        &&& *final(calls[i].0) == final(hooks)@[i]
                        &&& call_ensures(
                            H::on_concurrent_content,
                            (calls[i].0, content),
                            calls[i].1,
                        )
                        &&& i < calls.len() - 1 ==> calls[i].1 is Ok
                    }
                &&& forall|i: int|
                    calls.len() <= i < old(hooks)@.len() ==> #[trigger] final(hooks)@[i] == old(
                        hooks,
                    )@[i]
                &&& if calls.len() > 0 && calls.last().1 is Err {
                    r == calls.last().1
                } else {
                    r is Ok && calls.len() == old(hooks)@.len()
                }
            },
{
    try_hand(hooks, content, H::on_concurrent_content)
}

/// Calls `f` with one hook after the other, and with `arg`, until one call
/// reports an error, and gives that error back.
fn try_hand<H, A: Copy, E, F: Copy + Fn(&mut H, A) -> Result<(), E>>(
    hooks: &mut Vec<H>,
    arg: A,
    f: F,
) -> (r: Result<(), E>)
    requires
        forall|h: &mut H| call_requires(f, (h, arg)),
    ensures
        final(hooks)@.len() == old(hooks)@.len(),
        exists|calls: Seq<(&mut H, Result<(), E>)>|
            {
                &&& #[trigger] calls.len() <= old(hooks)@.len()
                &&& forall|i: int|
                    #![trigger calls[i]]
                    #![trigger final(hooks)@[i]]
                    0 <= i < calls.len() ==> {
                        &&& *calls[i].0 == old(hooks)@[i]
                        &&& *final(calls[i].0) == final(hooks)@[i]
                        &&& call_ensures(f, (calls[i].0, arg), calls[i].1)
                        &&& i < calls.len() - 1 ==> calls[i].1 is Ok
                    }
                &&& forall|i: int|
                    calls.len() <= i < old(hooks)@.len() ==> #[trigger] final(hooks)@[i] == old(
                        hooks,
                    )@[i]
                &&& if calls.len() > 0 && calls.last().1 is Err {
                    r == calls.last().1
                } else {
                    r is Ok && calls.len() == old(hooks)@.len()
                }
            },
{
    let call = |_none: &mut (), hook: &mut H| -> (done: Result<(), E>)
        ensures
            exists|h: &mut H|
                *h == *old(hook) && *final(h) == *final(hook) && #[trigger] call_ensures(
                    f,
                    (h, arg),
                    done,
                ),
        { f(hook, arg) };
    let ghost before = hooks@;
    let r = try_run_hooks(hooks, &mut (), call);
    proof {
        let (calls, states) = choose|
            calls: Seq<((&mut (), &mut H), Result<(), E>)>,
            states: Seq<()>,
        |
            {
                &&& #[trigger] calls.len() <= before.len()
                &&& #[trigger] states.len() == calls.len() + 1
                &&& forall|i: int|
                    0 <= i < calls.len() ==> {
                        &&& *(#[trigger] calls[i]).0.1 == before[i]
                        &&& *final(calls[i].0.1) == hooks@[i]
                        &&& call_ensures(call, calls[i].0, calls[i].1)
                        &&& i < calls.len() - 1 ==> calls[i].1 is Ok
                    }
                &&& forall|i: int|
                    calls.len() <= i < before.len() ==> #[trigger] hooks@[i] == before[i]
                &&& if calls.len() > 0 && calls.last().1 is Err {
                    r == calls.last().1
                } else {
                    r is Ok && calls.len() == before.len()
                }
            };
        let handed = Seq::new(
            calls.len(),
            |i: int|
                (
                    choose|h: &mut H|
                        *h == *calls[i].0.1 && *final(h) == *final(calls[i].0.1)
                            && #[trigger] call_ensures(f, (h, arg), calls[i].1),
                    calls[i].1,
                ),
        );
        assert(handed.len() == calls.len());
        assert forall|i: int| 0 <= i < handed.len() implies {
            &&& *(#[trigger] handed[i]).0 == before[i]
            &&& *final(handed[i].0) == hooks@[i]
            &&& call_ensures(f, (handed[i].0, arg), handed[i].1)
        } by {
            assert(call_ensures(call, calls[i].0, calls[i].1));
        }
    }
    r
}

/// What becomes of a state and of hooks where each hook in turn, from the first on,
/// is told with the state that the one before it left.
pub open spec fn in_turn<S, H>(told: spec_fn(S, H) -> (S, H), state: S, hooks: Seq<H>) -> (
    S,
    Seq<H>,
)
    decreases hooks.len(),
{
    if hooks.len() == 0 {
        (state, Seq::empty())
    } else {
        let (middle, front) = in_turn(told, state, hooks.drop_last());
        let (end, last) = told(middle, hooks.last());
        (end, front.push(last))
    }
}

proof fn lemma_in_turn<S, H>(
    told: spec_fn(S, H) -> (S, H),
    states: Seq<S>,
    before: Seq<H>,
    after: Seq<H>,
    n: int,
)
    requires
        states.len() == before.len() + 1,
        after.len() == before.len(),
        forall|i: int|
            0 <= i < before.len() ==> (states[i + 1], #[trigger] after[i]) == told(
                states[i],
                before[i],
            ),
        0 <= n <= before.len(),
    ensures
        in_turn(told, states[0], before.take(n)) == (states[n], after.take(n)),
    decreases n,
{
    if n > 0 {
        lemma_in_turn(told, states, before, after, n - 1);
        assert(before.take(n).drop_last() == before.take(n - 1));
        assert((states[n], after[n - 1]) == told(states[n - 1], before[n - 1]));
        assert(after.take(n) == after.take(n - 1).push(after[n - 1]));
    } else {
        assert(before.take(0).len() == 0);
        assert(after.take(0) == Seq::<H>::empty());
    }
}

/// Hooks are told in the order of the list, each once: where `f` does to a state and
/// a hook what `told` says, the state and the hooks end up as if each hook in turn
/// had been told.
pub proof fn lemma_hooks_are_told_in_order<H, S, F: Fn(&mut S, &mut H)>(
    f: F,
    told: spec_fn(S, H) -> (S, H),
)
    requires
        forall|s: &mut S, h: &mut H|
            #[trigger] call_ensures(f, (s, h), ()) ==> (*final(s), *final(h)) == told(*s, *h),
    ensures
        forall|hooks: &mut Vec<H>, state: &mut S|
            #[trigger] call_ensures(run_hooks::<H, S, F>, (hooks, state, f), ()) ==> (
                *final(state),
                final(hooks)@,
            ) == in_turn(told, *state, hooks@),
{
    assert forall|hooks: &mut Vec<H>, state: &mut S|
        #[trigger] call_ensures(run_hooks::<H, S, F>, (hooks, state, f), ()) implies (
        *final(state),
        final(hooks)@,
    ) == in_turn(told, *state, hooks@) by {
        let (calls, states) = choose|calls: Seq<(&mut S, &mut H)>, states: Seq<S>|
            {
                &&& #[trigger] calls.len() == hooks@.len()
                &&& #[trigger] states.len() == calls.len() + 1
                &&& states[0] == *state
                &&& states.last() == *final(state)
                &&& forall|i: int|
                    #![trigger calls[i]]
                    #![trigger final(hooks)@[i]]
                    0 <= i < calls.len() ==> {
                        &&& *calls[i].0 == states[i]
                        &&& *final(calls[i].0) == states[i + 1]
                        &&& *calls[i].1 == hooks@[i]
                        &&& *final(calls[i].1) == final(hooks)@[i]
                        &&& call_ensures(f, calls[i], ())
                    }
            };
        let n = hooks@.len() as int;
        assert forall|i: int| 0 <= i < n implies (states[i + 1], #[trigger] final(hooks)@[i])
            == told(states[i], hooks@[i]) by {
            let call = calls[i];
            assert(call_ensures(f, (call.0, call.1), ()));
        }
        lemma_in_turn(told, states, hooks@, final(hooks)@, n);
        assert(hooks@.take(n) == hooks@);
        assert(final(hooks)@.take(n) == final(hooks)@);
    }
}

/// What becomes of a state and of hooks where each hook in turn, from the first on,
/// is told with the state that the one before it left, until one reports an error,
/// and what is reported. A hook behind that one is as it was.
pub open spec fn in_turn_until_error<S, H, E>(
    told: spec_fn(S, H) -> (S, H, Result<(), E>),
    state: S,
    hooks: Seq<H>,
) -> (S, Seq<H>, Result<(), E>)
    decreases hooks.len(),
{
    if hooks.len() == 0 {
        (state, Seq::empty(), Ok(()))
    } else {
        let (middle, front, reported) = in_turn_until_error(told, state, hooks.drop_last());
        match reported {
            Err(e) => (middle, front.push(hooks.last()), Err(e)),
            Ok(_) => {
                let (end, last, r) = told(middle, hooks.last());
                (end, front.push(last), r)
            },
        }
    }
}

pub(crate) proof fn lemma_in_turn_until_error<S, H, E>(
    told: spec_fn(S, H) -> (S, H, Result<(), E>),
    states: Seq<S>,
    results: Seq<Result<(), E>>,
    before: Seq<H>,
    after: Seq<H>,
    n: int,
)
    requires
        results.len() <= before.len(),
        states.len() == results.len() + 1,
        after.len() == before.len(),
        forall|i: int|
            0 <= i < results.len() ==> (states[i + 1], #[trigger] after[i], results[i]) == told(
                states[i],
                before[i],
            ),
        forall|i: int| 0 <= i < results.len() - 1 ==> #[trigger] results[i] is Ok,
        forall|i: int| results.len() <= i < before.len() ==> #[trigger] after[i] == before[i],
        results.len() < before.len() ==> results.len() > 0 && results.last() is Err,
        0 <= n <= before.len(),
    ensures
        ({
            let (end, hooks, r) = in_turn_until_error(told, states[0], before.take(n));
            let made = if n < results.len() {
                n
            } else {
                results.len() as int
            };
            &&& end == states[made]
            &&& hooks == after.take(n)
            &&& made > 0 && results[made - 1] is Err ==> r == results[made - 1]
            &&& !(made > 0 && results[made - 1] is Err) ==> r is Ok
        }),
    decreases n,
{
    if n > 0 {
        lemma_in_turn_until_error(told, states, results, before, after, n - 1);
        assert(before.take(n).drop_last() == before.take(n - 1));
        assert(before.take(n).last() == before[n - 1]);
        assert(after.take(n) == after.take(n - 1).push(after[n - 1]));
        if n <= results.len() {
            assert((states[n], after[n - 1], results[n - 1]) == told(
                states[n - 1],
                before[n - 1],
            ));
            if n > 1 {
                assert(results[n - 2] is Ok);
            }
        } else {
            assert(after[n - 1] == before[n - 1]);
        }
    } else {
        assert(before.take(0).len() == 0);
        assert(after.take(0) == Seq::<H>::empty());
    }
}

/// Hooks are told in the order of the list until one reports an error, which is then
/// the result: where `f` does to a state and a hook what `told` says, the state and
/// the hooks end up as if each hook in turn had been told up to there.
pub proof fn lemma_first_error_stops<H, S, E, F: Fn(&mut S, &mut H) -> Result<(), E>>(
    f: F,
    told: spec_fn(S, H) -> (S, H, Result<(), E>),
    r: Result<(), E>,
)
    requires
        forall|s: &mut S, h: &mut H, done: Result<(), E>|
            #[trigger] call_ensures(f, (s, h), done) ==> (*final(s), *final(h), done) == told(
                *s,
                *h,
            ),
    ensures
        forall|hooks: &mut Vec<H>, state: &mut S|
            #[trigger] call_ensures(try_run_hooks::<H, S, E, F>, (hooks, state, f), r) ==> {
                let (end, after, reported) = in_turn_until_error(told, *state, hooks@);
                &&& *final(state) == end
                &&& final(hooks)@ == after
                &&& reported is Err ==> r == reported
                &&& reported is Ok ==> r is Ok
            },
{
    assert forall|hooks: &mut Vec<H>, state: &mut S|
        #[trigger] call_ensures(try_run_hooks::<H, S, E, F>, (hooks, state, f), r) implies {
        let (end, after, reported) = in_turn_until_error(told, *state, hooks@);
        &&& *final(state) == end
        &&& final(hooks)@ == after
        &&& reported is Err ==> r == reported
        &&& reported is Ok ==> r is Ok
    } by {
        let (calls, states) = choose|
            calls: Seq<((&mut S, &mut H), Result<(), E>)>,
            states: Seq<S>,
        |
            {
                &&& #[trigger] calls.len() <= hooks@.len()
                &&& #[trigger] states.len() == calls.len() + 1
                &&& states[0] == *state
                &&& states.last() == *final(state)
                &&& forall|i: int|
                    #![trigger calls[i]]
                    #![trigger final(hooks)@[i]]
                    0 <= i < calls.len() ==> {
                        &&& *calls[i].0.0 == states[i]
                        &&& *final(calls[i].0.0) == states[i + 1]
                        &&& *calls[i].0.1 == hooks@[i]
                        &&& *final(calls[i].0.1) == final(hooks)@[i]
                        &&& call_ensures(f, calls[i].0, calls[i].1)
                        &&& i < calls.len() - 1 ==> calls[i].1 is Ok
                    }
                &&& forall|i: int|
                    calls.len() <= i < hooks@.len() ==> #[trigger] final(hooks)@[i] == hooks@[i]
                &&& if calls.len() > 0 && calls.last().1 is Err {
                    r == calls.last().1
                } else {
                    r is Ok && calls.len() == hooks@.len()
                }
            };
        let n = hooks@.len() as int;
        let results = Seq::new(calls.len(), |i: int| calls[i].1);
        assert forall|i: int| 0 <= i < results.len() implies (
            states[i + 1],
            #[trigger] final(hooks)@[i],
            results[i],
        ) == told(states[i], hooks@[i]) by {
            let call = calls[i];
            assert(call_ensures(f, (call.0.0, call.0.1), call.1));
        }
        assert forall|i: int| 0 <= i < results.len() - 1 implies #[trigger] results[i] is Ok by {
            assert(calls[i].1 is Ok);
        }
        lemma_in_turn_until_error(told, states, results, hooks@, final(hooks)@, n);
        assert(hooks@.take(n) == hooks@);
        assert(final(hooks)@.take(n) == final(hooks)@);
    }
}

/// Every hook hears once that the server can resume, and of nothing else: each ends
/// up as hearing it makes it.
pub proof fn lemma_all_hear_of_resuming<H: EventsHandler>(told: spec_fn(H) -> H)
    requires
        forall|h: &mut H|
            #[trigger] call_ensures(H::on_server_supports_resume, (h,), ()) ==> *final(h) == told(
                *h,
            ),
    ensures
        forall|hooks: &mut Vec<H>|
            #[trigger] call_ensures(tell_supports_resume::<H>, (hooks,), ()) ==> final(hooks)@
                == hooks@.map_values(told),
{
    assert forall|hooks: &mut Vec<H>|
        #[trigger] call_ensures(tell_supports_resume::<H>, (hooks,), ()) implies final(hooks)@
        == hooks@.map_values(told) by {
        assert(final(hooks)@ =~= hooks@.map_values(told));
    }
}

/// Every hook hears the length of a file over FTP once, and of nothing else.
pub proof fn lemma_all_hear_the_length<H: EventsHandler>(ct_len: Option<u64>, told: spec_fn(H) -> H)
    requires
        forall|h: &mut H|
            #[trigger] call_ensures(H::on_ftp_content_length, (h, ct_len), ()) ==> (*final(h)
                == told(*h)),
    ensures
        forall|hooks: &mut Vec<H>|
            #[trigger] call_ensures(tell_ftp_content_length::<H>, (hooks, ct_len), ()) ==> (
                final(hooks)@ == hooks@.map_values(told)),
{
    assert forall|hooks: &mut Vec<H>|
        #[trigger] call_ensures(tell_ftp_content_length::<H>, (hooks, ct_len), ()) implies (
        final(hooks)@ == hooks@.map_values(told)) by {
        assert(final(hooks)@ =~= hooks@.map_values(told));
    }
}

/// Every hook hears once that there were too many failures, and of nothing else.
pub proof fn lemma_all_hear_of_too_many_failures<H: EventsHandler>(told: spec_fn(H) -> H)
    requires
        forall|h: &mut H|
            #[trigger] call_ensures(H::on_max_retries, (h,), ()) ==> *final(h) == told(*h),
    ensures
        forall|hooks: &mut Vec<H>|
            #[trigger] call_ensures(tell_max_retries::<H>, (hooks,), ()) ==> final(hooks)@
                == hooks@.map_values(told),
{
    assert forall|hooks: &mut Vec<H>|
        #[trigger] call_ensures(tell_max_retries::<H>, (hooks,), ()) implies final(hooks)@
        == hooks@.map_values(told) by {
        assert(final(hooks)@ =~= hooks@.map_values(told));
    }
}

/// Every hook hears once that the download is over, and of nothing else.
pub proof fn lemma_all_hear_of_the_end<H: EventsHandler>(told: spec_fn(H) -> H)
    requires
        forall|h: &mut H|
            #[trigger] call_ensures(H::on_finish, (h,), ()) ==> *final(h) == told(*h),
    ensures
        forall|hooks: &mut Vec<H>|
            #[trigger] call_ensures(tell_finish::<H>, (hooks,), ()) ==> final(hooks)@
                == hooks@.map_values(told),
{
    assert forall|hooks: &mut Vec<H>|
        #[trigger] call_ensures(tell_finish::<H>, (hooks,), ()) implies final(hooks)@
        == hooks@.map_values(told) by {
        assert(final(hooks)@ =~= hooks@.map_values(told));
    }
}

/// Every hook hears all the headers once, and of nothing else: each ends up as hearing
/// them makes it.
pub proof fn lemma_all_hear_the_headers<H: EventsHandler>(
    headers: HeaderMap<HeaderValue>,
    told: spec_fn(H, Map<Seq<char>, Seq<Seq<u8>>>) -> H,
)
    requires
        forall|h: &mut H, given: HeaderMap<HeaderValue>|
            #[trigger] call_ensures(H::on_headers, (h, given), ()) ==> *final(h) == told(
                *h,
                header_entries(given),
            ),
    ensures
        forall|hooks: &mut Vec<H>|
            #[trigger] call_ensures(tell_headers::<H>, (hooks, &headers), ()) ==> final(hooks)@
                == hooks@.map_values(|h: H| told(h, header_entries(headers))),
{
    assert forall|hooks: &mut Vec<H>|
        #[trigger] call_ensures(tell_headers::<H>, (hooks, &headers), ()) implies final(hooks)@
        == hooks@.map_values(|h: H| told(h, header_entries(headers))) by {
        let calls = choose|calls: Seq<(&mut H, HeaderMap<HeaderValue>)>|
            {
                &&& #[trigger] calls.len() == hooks@.len()
                &&& forall|i: int|
                    #![trigger calls[i]]
                    #![trigger final(hooks)@[i]]
                    0 <= i < calls.len() ==> {
                        &&& *calls[i].0 == hooks@[i]
                        &&& *final(calls[i].0) == final(hooks)@[i]
                        &&& header_entries(calls[i].1) == header_entries(headers)
                        &&& call_ensures(H::on_headers, calls[i], ())
                    }
            };
        assert forall|i: int| 0 <= i < hooks@.len() implies #[trigger] final(hooks)@[i] == told(
            hooks@[i],
            header_entries(headers),
        ) by {
            let call = calls[i];
            assert(call_ensures(H::on_headers, (call.0, call.1), ()));
        }
        assert(final(hooks)@ =~= hooks@.map_values(|h: H| told(h, header_entries(headers))));
    }
}

/// Each hook in turn is given the whole piece until one reports an error, which is
/// then the result; the hooks behind that one are as they were.
pub proof fn lemma_content_is_given_in_order<H: EventsHandler>(
    contents: &[u8],
    told: spec_fn(H) -> (H, Result<(), HookError>),
    r: Result<(), HookError>,
)
    requires
        forall|h: &mut H, done: Result<(), HookError>|
            #[trigger] call_ensures(H::on_content, (h, contents), done) ==> (
                *final(h),
                done,
            ) == told(*h),
    ensures
        forall|hooks: &mut Vec<H>|
            #[trigger] call_ensures(send_content::<H>, (hooks, contents), r) ==> {
                let (_, after, reported) = in_turn_until_error(
                    |_s: (), h: H| ((), told(h).0, told(h).1),
                    (),
                    hooks@,
                );
                &&& final(hooks)@ == after
                &&& reported is Err ==> r == reported
                &&& reported is Ok ==> r is Ok
            },
{
    let with_state = |_s: (), h: H| ((), told(h).0, told(h).1);
    assert forall|hooks: &mut Vec<H>|
        #[trigger] call_ensures(send_content::<H>, (hooks, contents), r) implies {
        let (_, after, reported) = in_turn_until_error(with_state, (), hooks@);
        &&& final(hooks)@ == after
        &&& reported is Err ==> r == reported
        &&& reported is Ok ==> r is Ok
    } by {
        let calls = choose|calls: Seq<(&mut H, Result<(), HookError>)>|
            {
                &&& #[trigger] calls.len() <= hooks@.len()
                &&& forall|i: int|
                    #![trigger calls[i]]
                    #![trigger final(hooks)@[i]]
                    0 <= i < calls.len() ==> {
                        &&& *calls[i].0 == hooks@[i]
                        &&& *final(calls[i].0) == final(hooks)@[i]
                        &&& call_ensures(H::on_content, (calls[i].0, contents), calls[i].1)
                        &&& i < calls.len() - 1 ==> calls[i].1 is Ok
                    }
                &&& forall|i: int|
                    calls.len() <= i < hooks@.len() ==> #[trigger] final(hooks)@[i] == hooks@[i]
                &&& if calls.len() > 0 && calls.last().1 is Err {
                    r == calls.last().1
                } else {
                    r is Ok && calls.len() == hooks@.len()
                }
            };
        let n = hooks@.len() as int;
        let results = Seq::new(calls.len(), |i: int| calls[i].1);
        let states = Seq::new(calls.len() + 1, |i: int| ());
        assert forall|i: int| 0 <= i < results.len() implies (
            states[i + 1],
            #[trigger] final(hooks)@[i],
            results[i],
        ) == with_state(states[i], hooks@[i]) by {
            let call = calls[i];
            assert(call_ensures(H::on_content, (call.0, contents), call.1));
        }
        assert forall|i: int| 0 <= i < results.len() - 1 implies #[trigger] results[i] is Ok by {
            assert(calls[i].1 is Ok);
        }
        lemma_in_turn_until_error(with_state, states, results, hooks@, final(hooks)@, n);
        assert(hooks@.take(n) == hooks@);
        assert(final(hooks)@.take(n) == final(hooks)@);
    }
}

/// Each hook in turn is given the piece of a range, with its number of bytes and its
/// offset, until one reports an error, which is then the result; the hooks behind
/// that one are as they were.
pub proof fn lemma_ranged_content_is_given_in_order<H: EventsHandler>(
    content: (u64, u64, &[u8]),
    told: spec_fn(H) -> (H, Result<(), HookError>),
    r: Result<(), HookError>,
)
    requires
        forall|h: &mut H, done: Result<(), HookError>|
            #[trigger] call_ensures(H::on_concurrent_content, (h, content), done) ==> (
                *final(h),
                done,
            ) == told(*h),
    ensures
        forall|hooks: &mut Vec<H>|
            #[trigger] call_ensures(send_concurrent_content::<H>, (hooks, content), r) ==> {
                let (_, after, reported) = in_turn_until_error(
                    |_s: (), h: H| ((), told(h).0, told(h).1),
                    (),
                    hooks@,
                );
                &&& final(hooks)@ == after
                &&& reported is Err ==> r == reported
                &&& reported is Ok ==> r is Ok
            },
{
    let with_state = |_s: (), h: H| ((), told(h).0, told(h).1);
    assert forall|hooks: &mut Vec<H>|
        #[trigger] call_ensures(send_concurrent_content::<H>, (hooks, content), r) implies {
        let (_, after, reported) = in_turn_until_error(with_state, (), hooks@);
        &&& final(hooks)@ == after
        &&& reported is Err ==> r == reported
        &&& reported is Ok ==> r is Ok
    } by {
        let calls = choose|calls: Seq<(&mut H, Result<(), HookError>)>|
            {
                &&& #[trigger] calls.len() <= hooks@.len()
                &&& forall|i: int|
                    #![trigger calls[i]]
                    #![trigger final(hooks)@[i]]
                    0 <= i < calls.len() ==> {
                        &&& *calls[i].0 == hooks@[i]
                        &&& *final(calls[i].0) == final(hooks)@[i]
                        &&& call_ensures(
                            H::on_concurrent_content,
                            (calls[i].0, content),
                            calls[i].1,
                        )
                        &&& i < calls.len() - 1 ==> calls[i].1 is Ok
                    }
                &&& forall|i: int|
                    calls.len() <= i < hooks@.len() ==> #[trigger] final(hooks)@[i] == hooks@[i]
                &&& if calls.len() > 0 && calls.last().1 is Err {
                    r == calls.last().1
                } else {
                    r is Ok && calls.len() == hooks@.len()
                }
            };
        let n = hooks@.len() as int;
        let results = Seq::new(calls.len(), |i: int| calls[i].1);
        let states = Seq::new(calls.len() + 1, |i: int| ());
        assert forall|i: int| 0 <= i < results.len() implies (
            states[i + 1],
            #[trigger] final(hooks)@[i],
            results[i],
        ) == with_state(states[i], hooks@[i]) by {
            let call = calls[i];
            assert(call_ensures(H::on_concurrent_content, (call.0, content), call.1));
        }
        assert forall|i: int| 0 <= i < results.len() - 1 implies #[trigger] results[i] is Ok by {
            assert(calls[i].1 is Ok);
        }
        lemma_in_turn_until_error(with_state, states, results, hooks@, final(hooks)@, n);
        assert(hooks@.take(n) == hooks@);
        assert(final(hooks)@.take(n) == final(hooks)@);
    }
}

} // verus!
