//! Vault bookkeeping: the set of vaults the application knows about,
//! which of them are open, and the actions the supervisor reacts to.

use vstd::prelude::*;

verus! {

/// One vault of the note-taking application. The path is kept as a plain
/// string; the surrounding supervisor turns it into a filesystem path.
#[derive(Debug)]
pub struct Vault {
    pub path: String,
    pub ts: u64,
    pub open: Option<bool>,
}

impl Clone for Vault {
    fn clone(&self) -> (r: Self)
        ensures
            r == *self,
    {
        Vault { path: self.path.clone(), ts: self.ts, open: self.open }
    }
}

/// The vault list: named vaults in the order they were recorded.
#[derive(Debug)]
pub struct Vaults {
    vaults: Vec<(String, Vault)>,
}

/// The vault values of a name/vault list, in order.
pub open spec fn vault_values(s: Seq<(String, Vault)>) -> Seq<Vault>
    decreases s.len(),
{
    if s.len() == 0 {
        Seq::<Vault>::empty()
    } else {
        vault_values(s.drop_last()).push(s.last().1)
    }
}

/// The open vault values of a name/vault list, in order. A vault counts
/// as open exactly when its `open` flag is present and true.
pub open spec fn open_vault_values(s: Seq<(String, Vault)>) -> Seq<Vault>
    decreases s.len(),
{
    if s.len() == 0 {
        Seq::<Vault>::empty()
    } else {
        let rest = open_vault_values(s.drop_last());
        if s.last().1.open == Some(true) {
            rest.push(s.last().1)
        } else {
            rest
        }
    }
}

impl View for Vaults {
    type V = Seq<(String, Vault)>;

    closed spec fn view(&self) -> Seq<(String, Vault)> {
        self.vaults@
    }
}

impl Vaults {
    /// An empty vault list; the caller records vaults one by one as it
    /// reads them from the application's configuration.
    pub fn new() -> (v: Self)
        ensures
            v@ == Seq::<(String, Vault)>::empty(),
    {
        Vaults { vaults: Vec::new() }
    }

    /// Records one named vault at the end of the list.
    pub fn add_vault(&mut self, name: String, vault: Vault)
        ensures
            final(self)@ == old(self)@.push((name, vault)),
    {
        self.vaults.push((name, vault));
    }

    /// The vaults whose `open` flag is present and true, in list order.
    pub fn get_open_vaults(&self) -> (r: Vec<Vault>)
        ensures
            r@ == open_vault_values(self@),
    {
        let mut r: Vec<Vault> = Vec::new();
        let n = self.vaults.len();
        let mut i: usize = 0;
        while i < n
            invariant
                n == self.vaults@.len(),
                i <= n,
                r@ == open_vault_values(self.vaults@.take(i as int)),
            decreases n - i,
        {
            let ghost prefix = self.vaults@.take(i as int);
            let v = &self.vaults[i].1;
            let is_open = match v.open {
                Some(o) => o,
                None => false,
            };
            if is_open {
                r.push(v.clone());
            }
            proof {
                assert(self.vaults@.take(i + 1).drop_last() =~= prefix);
                assert(self.vaults@.take(i + 1).last() == self.vaults@[i as int]);
            }
            i = i + 1;
        }
        proof {
            assert(self.vaults@.take(n as int) =~= self.vaults@);
        }
        r
    }

    /// Every vault value, open or not, in list order.
    pub fn get_vaults(&self) -> (r: Vec<Vault>)
        ensures
            r@ == vault_values(self@),
    {
        let mut r: Vec<Vault> = Vec::new();
        let n = self.vaults.len();
        let mut i: usize = 0;
        while i < n
            invariant
                n == self.vaults@.len(),
                i <= n,
                r@ == vault_values(self.vaults@.take(i as int)),
            decreases n - i,
        {
            let ghost prefix = self.vaults@.take(i as int);
            r.push(self.vaults[i].1.clone());
            proof {
                assert(self.vaults@.take(i + 1).drop_last() =~= prefix);
                assert(self.vaults@.take(i + 1).last() == self.vaults@[i as int]);
            }
            i = i + 1;
        }
        proof {
            assert(self.vaults@.take(n as int) =~= self.vaults@);
        }
        r
    }
}

/// The messages the supervisor's tasks exchange. Paths travel as plain
/// strings.
#[derive(Debug, Clone)]
pub enum Action {
    ChangeOpenVaults(Vec<Vault>),
    TerminateVaultListeners,
    VaultPluginChanged(String),
    UpdatePlugins(String),
    StartedSync,
    FinishedSync,
}

} // verus!
