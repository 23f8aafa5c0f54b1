use vstd::prelude::*;

verus! {

/// The last hit among `reports`, in order, or `None` where no member reported one.
pub open spec fn last_report<B, R>(reports: Seq<Option<(B, R)>>) -> Option<(B, R)>
    decreases reports.len(),
{
    if reports.len() == 0 {
        None
    } else {
        match reports.last() {
            Some(report) => Some(report),
            None => last_report(reports.drop_last()),
        }
    }
}

/// The upper bound on the ray parameter once `reports` are in: that of the
/// last hit reported, or `t_max` while there is none.
pub open spec fn closest_so_far<B, R>(t_max: B, reports: Seq<Option<(B, R)>>) -> B {
    match last_report(reports) {
        Some((t, _)) => t,
        None => t_max,
    }
}

/// `reports` holds, for each member of `objects` in order, what `probe`
/// answered when that member was tested with the closest parameter so far as
/// its upper bound.
pub open spec fn probed_in_order<H, B, R, F: Fn(&H, B) -> Option<(B, R)>>(
    probe: F,
    objects: Seq<H>,
    t_max: B,
    reports: Seq<Option<(B, R)>>,
) -> bool {
    &&& reports.len() == objects.len()
    &&& forall|k: int|
        0 <= k < reports.len() ==> call_ensures(
            probe,
            (&objects[k], closest_so_far(t_max, reports.take(k))),
            #[trigger] reports[k],
        )
}

/// Under any preorder `le` on ray parameters, when every reported hit lies
/// within the bound its member was given, the last hit reported is the
/// nearest: its parameter is within `t_max` and within that of every hit
/// reported.
pub proof fn lemma_last_report_is_nearest<B, R>(
    le: spec_fn(B, B) -> bool,
    t_max: B,
    reports: Seq<Option<(B, R)>>,
)
    requires
        forall|a: B| #[trigger] le(a, a),
        forall|a: B, b: B, c: B| #[trigger] le(a, b) && #[trigger] le(b, c) ==> le(a, c),
        forall|k: int|
            0 <= k < reports.len() ==> (#[trigger] reports[k] matches Some((t, _)) ==> le(
                t,
                closest_so_far(t_max, reports.take(k)),
            )),
    ensures
        last_report(reports) matches Some((t, _)) ==> {
            &&& le(t, t_max)
            &&& forall|k: int|
                0 <= k < reports.len() ==> (#[trigger] reports[k] matches Some((u, _)) ==> le(
                    t,
                    u,
                ))
        },
    decreases reports.len(),
{
    if reports.len() > 0 {
        let prev = reports.drop_last();
        assert forall|k: int|
            0 <= k < prev.len() implies (#[trigger] prev[k] matches Some((t, _)) ==> le(
            t,
            closest_so_far(t_max, prev.take(k)),
        )) by {
            assert(prev.take(k) =~= reports.take(k));
            assert(prev[k] == reports[k]);
        }
        lemma_last_report_is_nearest(le, t_max, prev);
        let n = reports.len() - 1;
        assert(reports.take(n as int) =~= prev);
        match reports.last() {
            Some((t, _)) => {
                assert(reports[n as int] == reports.last());
                match last_report(prev) {
                    Some((t0, _)) => {
                        assert(le(t, t0));
                        assert(le(t0, t_max));
                        assert forall|k: int|
                            0 <= k < reports.len() implies (#[trigger] reports[k] matches Some(
                            (u, _),
                        ) ==> le(t, u)) by {
                            if k < n {
                                assert(reports[k] == prev[k]);
                                if let Some((u, _)) = reports[k] {
                                    assert(le(t0, u));
                                }
                            }
                        }
                    },
                    None => {
                        lemma_no_report(prev);
                        assert forall|k: int|
                            0 <= k < reports.len() implies (#[trigger] reports[k] matches Some(
                            (u, _),
                        ) ==> le(t, u)) by {
                            if k < n {
                                assert(reports[k] == prev[k]);
                            }
                        }
                    },
                }
            },
            None => {
                if let Some((t0, _)) = last_report(prev) {
                    assert forall|k: int|
                        0 <= k < reports.len() implies (#[trigger] reports[k] matches Some(
                        (u, _),
                    ) ==> le(t0, u)) by {
                        if k < n {
                            assert(reports[k] == prev[k]);
                        }
                    }
                }
            },
        }
    }
}

/// Where no hit was reported, every report is a miss.
proof fn lemma_no_report<B, R>(reports: Seq<Option<(B, R)>>)
    requires
        last_report(reports) is None,
    ensures
        forall|k: int| 0 <= k < reports.len() ==> #[trigger] reports[k] is None,
    decreases reports.len(),
{
    if reports.len() > 0 {
        let prev = reports.drop_last();
        lemma_no_report(prev);
        assert forall|k: int| 0 <= k < reports.len() implies #[trigger] reports[k] is None by {
            if k < reports.len() - 1 {
                assert(reports[k] == prev[k]);
            }
        }
    }
}

/// The scene: an ordered collection of hittable objects.
///
/// Every member is checked on each query, so the order carries no meaning for
/// the nearest hit; it is kept only so that the scene reads back as it was built.
pub struct HittableList<H> {
    objects: Vec<H>,
}

impl<H> View for HittableList<H> {
    type V = Seq<H>;

    closed spec fn view(&self) -> Seq<H> {
        self.objects@
    }
}

impl<H> HittableList<H> {
    /// An empty scene.
    pub fn new() -> (list: Self)
        ensures
            list@ == Seq::<H>::empty(),
    {
        HittableList { objects: Vec::new() }
    }

    /// A scene that holds `object` alone.
    pub fn create(object: H) -> (list: Self)
        ensures
            list@ == seq![object],
    {
        let mut objects = Vec::new();
        objects.push(object);
        HittableList { objects }
    }

    /// Appends `object` after the members already present.
    pub fn add(&mut self, object: H)
        ensures
            final(self)@ == old(self)@.push(object),
    {
        self.objects.push(object);
    }

    /// Removes every member.
    pub fn clear(&mut self)
        ensures
            final(self)@ == Seq::<H>::empty(),
    {
        self.objects.clear();
    }

    /// The nearest hit in the scene.
    ///
    /// `probe` tests one member against the ray with an upper bound on the ray
    /// parameter, and reports a hit as its parameter and its record. Every
    /// member is tested, in order, with the parameter of the last hit reported
    /// so far as its bound (`t_max` before any); the record of the last hit
    /// reported comes back. As each member reports only hits within its bound,
    /// that is the nearest one.
    pub fn hit<B: Copy, R, F: Fn(&H, B) -> Option<(B, R)>>(&self, t_max: B, probe: F) -> (rec:
        Option<R>)
        requires
            forall|object: &H, bound: B| #[trigger] probe.requires((object, bound)),
        ensures
            exists|reports: Seq<Option<(B, R)>>|
                {
                    &&& probed_in_order(probe, self@, t_max, reports)
                    &&& rec == match last_report(reports) {
                        Some((_, r)) => Some(r),
                        None => None,
                    }
                },
    {
        let mut closest = t_max;
        let mut rec: Option<R> = None;
        let ghost mut reports: Seq<Option<(B, R)>> = Seq::empty();
        let n = self.objects.len();
        let mut k: usize = 0;
        while k < n
            invariant
                n == self@.len(),
                k <= n,
                reports.len() == k,
                forall|m: int|
                    0 <= m < k ==> call_ensures(
                        probe,
                        (&self@[m], closest_so_far(t_max, reports.take(m))),
                        #[trigger] reports[m],
                    ),
                forall|object: &H, bound: B| #[trigger] probe.requires((object, bound)),
                closest == closest_so_far(t_max, reports),
                rec == match last_report(reports) {
                    Some((_, r)) => Some(r),
                    None => None,
                },
            decreases n - k,
        {
            let report = probe(&self.objects[k], closest);
            proof {
                let next = reports.push(report);
                assert(next.take(k as int) =~= reports);
                assert(next.drop_last() =~= reports);
                assert forall|m: int| 0 <= m < k implies next.take(m) =~= reports.take(m) by {}
                reports = next;
            }
            match report {
                Some((t, r)) => {
                    closest = t;
                    rec = Some(r);
                },
                None => {},
            }
            k = k + 1;
        }
        assert(probed_in_order(probe, self@, t_max, reports));
        rec
    }

    /// The number of members.
    pub fn len(&self) -> (n: usize)
        ensures
            n == self@.len(),
    {
        self.objects.len()
    }

    /// The member at position `index`, in the order of insertion.
    pub fn get(&self, index: usize) -> (object: &H)
        requires
            index < self@.len(),
        ensures
            *object == self@[index as int],
    {
        &self.objects[index]
    }
}

} // verus!
