use vstd::prelude::*;

verus! {

/// The text sent to a seller after the greeting and the name.
pub const MESSAGE_TAIL: &'static str = ", ich möchte die Tickets bitte gleich reservieren und kaufen";

/// The absolute address of a listing's detail page.
pub fn detail_url(domain: &str, contact_path: &str) -> (r: String)
    ensures
        r@ == "https://"@ + domain@ + contact_path@,
{
    let mut r = String::from_str("https://");
    r.append(domain);
    r.append(contact_path);
    r
}

/// The message typed into a seller's contact form.
pub fn contact_message(seller: &str) -> (r: String)
    ensures
        r@ == "Hallo "@ + seller@ + MESSAGE_TAIL@,
{
    let mut r = String::from_str("Hallo ");
    r.append(seller);
    r.append(MESSAGE_TAIL);
    r
}

/// The body of the push notification sent after a seller was contacted.
pub fn notification_body(seller: &str, title: &str, price: &str) -> (r: String)
    ensures
        r@ == "Name: "@ + seller@ + "\nTitle: "@ + title@ + "\nPrice: "@ + price@,
{
    let mut r = String::from_str("Name: ");
    r.append(seller);
    r.append("\nTitle: ");
    r.append(title);
    r.append("\nPrice: ");
    r.append(price);
    r
}

/// What a failed outreach does to the rest of its cycle.
#[derive(Clone, Copy, Debug, PartialEq, Eq, Structural)]
pub enum FailurePolicy {
    /// The cycle stops and the error goes to the supervisor.
    AbortCycle,
    /// The listing is given up and the next one is contacted.
    SkipListing,
}

/// Progress through the new listings of one cycle, contacted one at a time
/// in order.
#[derive(Clone, Copy, Debug, PartialEq, Eq, Structural)]
pub struct OutreachRun {
    pub policy: FailurePolicy,
    pub total: usize,
    pub next: usize,
    pub contacted: usize,
    pub failed: usize,
    pub aborted: bool,
}

impl OutreachRun {
    pub open spec fn wf(&self) -> bool {
        &&& self.next <= self.total
        &&& self.contacted + self.failed == self.next
        &&& self.policy == FailurePolicy::AbortCycle ==> self.aborted == (self.failed > 0) && self.failed <= 1
        &&& self.policy == FailurePolicy::SkipListing ==> !self.aborted
    }

    /// The index of the listing to contact next, if any.
    pub open spec fn pending(&self) -> Option<usize> {
        if !self.aborted && self.next < self.total {
            Some(self.next)
        } else {
            None
        }
    }

    pub fn start(total: usize, policy: FailurePolicy) -> (r: OutreachRun)
        ensures
            r.wf(),
            r.policy == policy,
            r.total == total,
            r.next == 0 && r.contacted == 0 && r.failed == 0 && !r.aborted,
    {
        OutreachRun { policy, total, next: 0, contacted: 0, failed: 0, aborted: false }
    }

    pub fn next_listing(&self) -> (r: Option<usize>)
        ensures
            r == self.pending(),
    {
        if !self.aborted && self.next < self.total {
            Some(self.next)
        } else {
            None
        }
    }

    /// Records how the outreach to the pending listing went.
    pub fn record(&mut self, succeeded: bool)
        requires
            old(self).wf(),
            old(self).pending() is Some,
        ensures
            final(self).wf(),
            final(self).policy == old(self).policy,
            final(self).total == old(self).total,
            final(self).next == old(self).next + 1,
            succeeded ==> final(self).contacted == old(self).contacted + 1 && final(self).failed
                == old(self).failed,
            !succeeded ==> final(self).failed == old(self).failed + 1 && final(self).contacted
                == old(self).contacted,
            final(self).aborted == (!succeeded && old(self).policy == FailurePolicy::AbortCycle),
    {
        self.next = self.next + 1;
        if succeeded {
            self.contacted = self.contacted + 1;
        } else {
            self.failed = self.failed + 1;
            if self.policy == FailurePolicy::AbortCycle {
                self.aborted = true;
            }
        }
    }
}

/// Under `AbortCycle` a failure leaves every later listing of the cycle
/// uncontacted; under `SkipListing` the next listing is still contacted.
pub proof fn lemma_failure_policy(run: OutreachRun, after: OutreachRun)
    requires
        run.wf(),
        run.pending() is Some,
        after.wf(),
        after.policy == run.policy,
        after.total == run.total,
        after.next == run.next + 1,
        after.failed == run.failed + 1,
        after.aborted == (run.policy == FailurePolicy::AbortCycle),
    ensures
        run.policy == FailurePolicy::AbortCycle ==> after.pending() is None,
        run.policy == FailurePolicy::SkipListing && run.next + 1 < run.total ==> after.pending()
            == Some((run.next + 1) as usize),
{
}

} // verus!
