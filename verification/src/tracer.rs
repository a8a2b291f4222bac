//! Following one light path through the scene.
//!
//! A path starts with a ray from the camera. The scene is probed with the
//! ray; where a surface scatters it, the path goes on with the scattered
//! ray, until the ray leaves the scene, is absorbed, or the budget of
//! bounces is used up. What a ray and a colour are is the caller's business:
//! the scene is a function from a ray to an [`Answer`], and the colour of
//! the path is the product of the attenuations of its bounces and of the
//! colour that its [`End`] stands for.

use vstd::prelude::*;

verus! {

/// What the scene answers when it is probed with a ray.
#[derive(Debug, PartialEq)]
pub enum Answer<R, C> {
    /// The ray leaves the scene without touching a surface.
    Miss,
    /// A surface sends the ray on as `ray` and dims it by `attenuation`.
    Scattered { ray: R, attenuation: C },
    /// A surface ends the ray and gives `colour` of its own.
    Absorbed { colour: C },
    /// A surface is hit whose material does not interact with light.
    Inert,
}

/// One bounce of a path: the ray that left the surface, and the attenuation
/// that the surface put on the light.
#[derive(Debug, PartialEq)]
pub struct Bounce<R, C> {
    pub ray: R,
    pub attenuation: C,
}

/// How a path ended.
#[derive(Debug, PartialEq)]
pub enum End<C> {
    /// The budget of bounces was used up: the path contributes black.
    Spent,
    /// The last ray left the scene: the path contributes the background
    /// along that ray.
    Sky,
    /// A surface absorbed the last ray: the path contributes `colour`.
    Emitted { colour: C },
    /// The last ray hit a surface that does not interact: the path
    /// contributes black.
    Inert,
}

/// A light path that has been followed to its end.
#[derive(Debug)]
pub struct Trace<R, C> {
    /// The bounces in the order in which they were made.
    pub bounces: Vec<Bounce<R, C>>,
    pub end: End<C>,
}

/// The ray with which the scene is probed for the `i`-th time, counting
/// from zero, on a path that starts with `first` and makes `bounces`.
pub open spec fn ray_into<R, C>(first: R, bounces: Seq<Bounce<R, C>>, i: int) -> R {
    if i <= 0 {
        first
    } else {
        bounces[i - 1].ray
    }
}

/// Whether every one of `bounces` is what the scene `probe` answered to the
/// ray before it, on a path that starts with `first`.
pub open spec fn bounces_follow<R, C, F: Fn(&R) -> Answer<R, C>>(
    probe: F,
    first: R,
    bounces: Seq<Bounce<R, C>>,
) -> bool {
    forall|i: int|
        0 <= i < bounces.len() ==> call_ensures(
            probe,
            (&ray_into(first, bounces, i),),
            Answer::Scattered { ray: (#[trigger] bounces[i]).ray, attenuation: bounces[i].attenuation },
        )
}

impl<R, C> Trace<R, C> {
    /// The ray with which the scene is probed for the `i`-th time, counting
    /// from zero, on a path that starts with `first`.
    pub open spec fn ray_into(self, first: R, i: int) -> R {
        ray_into(first, self.bounces@, i)
    }

    /// The ray that the path ended with, where it started with `first`.
    pub fn last_ray<'a>(&'a self, first: &'a R) -> (last: &'a R)
        ensures
            *last == self.ray_into(*first, self.bounces@.len() as int),
    {
        let made = self.bounces.len();
        if made == 0 {
            first
        } else {
            &self.bounces[made - 1].ray
        }
    }
}

/// Whether `trace` is what following `ray` through the scene `probe` with a
/// budget of `depth` bounces can give.
///
/// Every bounce is what the scene answered to the ray before it. No more
/// bounces are made than the budget allows. With the budget used up the
/// path is spent, whatever the scene would answer next; otherwise the end
/// is what the scene answered to the last ray.
pub open spec fn is_trace<R, C, F: Fn(&R) -> Answer<R, C>>(
    probe: F,
    ray: R,
    depth: int,
    trace: Trace<R, C>,
) -> bool {
    let made = trace.bounces@.len() as int;
    let last = trace.ray_into(ray, made);
    &&& made == 0 || made <= depth
    &&& bounces_follow(probe, ray, trace.bounces@)
    &&& match trace.end {
        End::Spent => made >= depth,
        End::Sky => made < depth && call_ensures(probe, (&last,), Answer::Miss),
        End::Emitted { colour } => made < depth && call_ensures(
            probe,
            (&last,),
            Answer::Absorbed { colour },
        ),
        End::Inert => made < depth && call_ensures(probe, (&last,), Answer::Inert),
    }
}

/// Follows the path that starts with `ray` for at most `depth` bounces:
/// probes the scene with the ray, goes on with the scattered ray for as long
/// as the scene scatters and a bounce is left, and reports the bounces made
/// and how the path ended.
pub fn trace<R, C, F>(ray: &R, depth: isize, probe: F) -> (trace: Trace<R, C>) where
    F: Fn(&R) -> Answer<R, C>,

    requires
        forall|r: R| call_requires(probe, (&r,)),
    ensures
        is_trace(probe, *ray, depth as int, trace),
{
    let mut bounces: Vec<Bounce<R, C>> = Vec::new();
    let mut left: isize = depth;
    let mut end: End<C> = End::Spent;
    while left > 0
        invariant_except_break
            left <= depth,
            left >= 0 || left == depth,
            bounces@.len() == depth - left,
            end is Spent,
        invariant
            forall|r: R| call_requires(probe, (&r,)),
            bounces_follow(probe, *ray, bounces@),
        ensures
            is_trace(probe, *ray, depth as int, Trace { bounces, end }),
        decreases left,
    {
        let made = bounces.len();
        let current: &R = if made == 0 {
            ray
        } else {
            &bounces[made - 1].ray
        };
        let ghost before = bounces@;
        match probe(current) {
            Answer::Scattered { ray: onward, attenuation } => {
                bounces.push(Bounce { ray: onward, attenuation });
                left = left - 1;
                proof {
                    lemma_one_more_bounce(probe, *ray, before, bounces@[made as int]);
                }
            },
            Answer::Miss => {
                end = End::Sky;
                break ;
            },
            Answer::Absorbed { colour } => {
                end = End::Emitted { colour };
                break ;
            },
            Answer::Inert => {
                end = End::Inert;
                break ;
            },
        }
    }
    Trace { bounces, end }
}

/// A path whose bounces follow from the scene still does so after the scene
/// has scattered its last ray once more.
proof fn lemma_one_more_bounce<R, C, F: Fn(&R) -> Answer<R, C>>(
    probe: F,
    first: R,
    bounces: Seq<Bounce<R, C>>,
    next: Bounce<R, C>,
)
    requires
        bounces_follow(probe, first, bounces),
        call_ensures(
            probe,
            (&ray_into(first, bounces, bounces.len() as int),),
            Answer::Scattered { ray: next.ray, attenuation: next.attenuation },
        ),
    ensures
        bounces_follow(probe, first, bounces.push(next)),
{
    let grown = bounces.push(next);
    assert forall|i: int| 0 <= i < grown.len() implies call_ensures(
        probe,
        (&ray_into(first, grown, i),),
        Answer::Scattered { ray: (#[trigger] grown[i]).ray, attenuation: grown[i].attenuation },
    ) by {
        if i < bounces.len() {
            assert(grown[i] == bounces[i]);
            assert(ray_into(first, grown, i) == ray_into(first, bounces, i));
        } else {
            assert(ray_into(first, grown, i) == ray_into(first, bounces, i));
        }
    }
}

/// Without a bounce to spend the path is spent at once: it makes no bounce
/// and contributes black, whatever the ray and whatever the scene.
pub proof fn lemma_no_budget_is_black<R, C, F: Fn(&R) -> Answer<R, C>>(
    probe: F,
    ray: R,
    depth: int,
    trace: Trace<R, C>,
)
    requires
        is_trace(probe, ray, depth, trace),
        depth <= 0,
    ensures
        trace.bounces@.len() == 0,
        trace.end is Spent,
{
}

/// A path makes no more bounces than its budget allows, and it is spent
/// exactly when it has made them all.
pub proof fn lemma_budget_bounds_bounces<R, C, F: Fn(&R) -> Answer<R, C>>(
    probe: F,
    ray: R,
    depth: int,
    trace: Trace<R, C>,
)
    requires
        is_trace(probe, ray, depth, trace),
    ensures
        trace.bounces@.len() <= if depth > 0 { depth } else { 0 },
        trace.end is Spent <==> trace.bounces@.len() == if depth > 0 { depth } else { 0 },
{
}

/// In a scene without geometry, where every ray misses, a path with a
/// bounce to spend ends on the background with its first ray.
pub proof fn lemma_empty_scene_is_sky<R, C, F: Fn(&R) -> Answer<R, C>>(
    probe: F,
    ray: R,
    depth: int,
    trace: Trace<R, C>,
)
    requires
        is_trace(probe, ray, depth, trace),
        depth > 0,
        forall|r: R, answer: Answer<R, C>| call_ensures(probe, (&r,), answer) ==> answer is Miss,
    ensures
        trace.bounces@.len() == 0,
        trace.end is Sky,
{
    if trace.bounces@.len() > 0 {
        let first = Answer::Scattered {
            ray: trace.bounces@[0].ray,
            attenuation: trace.bounces@[0].attenuation,
        };
        assert(call_ensures(probe, (&trace.ray_into(ray, 0),), first));
        assert(first is Miss);
    }
    let last = trace.ray_into(ray, 0);
    match trace.end {
        End::Emitted { colour } => {
            assert(call_ensures(probe, (&last,), Answer::<R, C>::Absorbed { colour }));
        },
        End::Inert => {
            assert(call_ensures(probe, (&last,), Answer::<R, C>::Inert));
        },
        _ => {},
    }
}

/// Following a path is repeatable: in a scene that has only one answer to
/// each ray, two paths from the same ray with the same budget make the same
/// bounces and end alike.
pub proof fn lemma_trace_is_repeatable<R, C, F: Fn(&R) -> Answer<R, C>>(
    probe: F,
    ray: R,
    depth: int,
    first: Trace<R, C>,
    second: Trace<R, C>,
)
    requires
        is_trace(probe, ray, depth, first),
        is_trace(probe, ray, depth, second),
        forall|r: R, a: Answer<R, C>, b: Answer<R, C>|
            call_ensures(probe, (&r,), a) && call_ensures(probe, (&r,), b) ==> a == b,
    ensures
        first.bounces@ == second.bounces@,
        first.end == second.end,
{
    let shorter = if first.bounces@.len() <= second.bounces@.len() {
        first.bounces@.len() as int
    } else {
        second.bounces@.len() as int
    };
    lemma_bounces_agree(probe, ray, depth, first, second, shorter);
    lemma_same_length(probe, ray, depth, first, second);
    lemma_same_length(probe, ray, depth, second, first);
    assert(first.bounces@ =~= second.bounces@);
    lemma_end_is_decided(probe, ray, depth, first, second);
}

/// Two paths through a scene with one answer to each ray make the same
/// bounces for as long as both go on.
proof fn lemma_bounces_agree<R, C, F: Fn(&R) -> Answer<R, C>>(
    probe: F,
    ray: R,
    depth: int,
    first: Trace<R, C>,
    second: Trace<R, C>,
    upto: int,
)
    requires
        is_trace(probe, ray, depth, first),
        is_trace(probe, ray, depth, second),
        forall|r: R, a: Answer<R, C>, b: Answer<R, C>|
            call_ensures(probe, (&r,), a) && call_ensures(probe, (&r,), b) ==> a == b,
        0 <= upto <= first.bounces@.len(),
        upto <= second.bounces@.len(),
    ensures
        forall|i: int| 0 <= i < upto ==> first.bounces@[i] == second.bounces@[i],
        first.ray_into(ray, upto) == second.ray_into(ray, upto),
    decreases upto,
{
    if upto > 0 {
        lemma_bounces_agree(probe, ray, depth, first, second, upto - 1);
        let i = upto - 1;
        let into = first.ray_into(ray, i);
        let a = Answer::Scattered {
            ray: first.bounces@[i].ray,
            attenuation: first.bounces@[i].attenuation,
        };
        let b = Answer::Scattered {
            ray: second.bounces@[i].ray,
            attenuation: second.bounces@[i].attenuation,
        };
        assert(call_ensures(probe, (&into,), a));
        assert(call_ensures(probe, (&second.ray_into(ray, i),), b));
        assert(a == b);
    }
}

/// Of two paths through a scene with one answer to each ray, the first does
/// not stop before the second.
proof fn lemma_same_length<R, C, F: Fn(&R) -> Answer<R, C>>(
    probe: F,
    ray: R,
    depth: int,
    first: Trace<R, C>,
    second: Trace<R, C>,
)
    requires
        is_trace(probe, ray, depth, first),
        is_trace(probe, ray, depth, second),
        forall|r: R, a: Answer<R, C>, b: Answer<R, C>|
            call_ensures(probe, (&r,), a) && call_ensures(probe, (&r,), b) ==> a == b,
    ensures
        first.bounces@.len() >= second.bounces@.len(),
{
    let made = first.bounces@.len() as int;
    if made < second.bounces@.len() {
        lemma_bounces_agree(probe, ray, depth, first, second, made);
        let last = first.ray_into(ray, made);
        let went_on = Answer::Scattered {
            ray: second.bounces@[made].ray,
            attenuation: second.bounces@[made].attenuation,
        };
        assert(call_ensures(probe, (&second.ray_into(ray, made),), went_on));
        match first.end {
            End::Spent => {},
            End::Sky => {
                assert(call_ensures(probe, (&last,), Answer::<R, C>::Miss));
            },
            End::Emitted { colour } => {
                assert(call_ensures(probe, (&last,), Answer::<R, C>::Absorbed { colour }));
            },
            End::Inert => {
                assert(call_ensures(probe, (&last,), Answer::<R, C>::Inert));
            },
        }
    }
}

/// Two paths that made the same bounces through a scene with one answer to
/// each ray end alike.
proof fn lemma_end_is_decided<R, C, F: Fn(&R) -> Answer<R, C>>(
    probe: F,
    ray: R,
    depth: int,
    first: Trace<R, C>,
    second: Trace<R, C>,
)
    requires
        is_trace(probe, ray, depth, first),
        is_trace(probe, ray, depth, second),
        forall|r: R, a: Answer<R, C>, b: Answer<R, C>|
            call_ensures(probe, (&r,), a) && call_ensures(probe, (&r,), b) ==> a == b,
        first.bounces@ == second.bounces@,
    ensures
        first.end == second.end,
{
    let made = first.bounces@.len() as int;
    let last = first.ray_into(ray, made);
    assert(last == second.ray_into(ray, made));
    if made < depth {
        let a: Answer<R, C> = match first.end {
            End::Spent => Answer::Miss,
            End::Sky => Answer::Miss,
            End::Emitted { colour } => Answer::Absorbed { colour },
            End::Inert => Answer::Inert,
        };
        let b: Answer<R, C> = match second.end {
            End::Spent => Answer::Miss,
            End::Sky => Answer::Miss,
            End::Emitted { colour } => Answer::Absorbed { colour },
            End::Inert => Answer::Inert,
        };
        assert(call_ensures(probe, (&last,), a));
        assert(call_ensures(probe, (&last,), b));
        assert(a == b);
    }
}

} // verus!
