//! What the text interface remembers from one run to the next.
use vstd::prelude::*;

verus! {

/// An archive that is listed in the configuration.
#[derive(Debug)]
pub struct StorageConfig {
    pub path: String,
    pub mount_point: String,
    pub auto_mount: bool,
}

/// A listed archive as a mathematical value.
#[verifier::ext_equal]
pub struct StorageConfigView {
    pub path: Seq<char>,
    pub mount_point: Seq<char>,
    pub auto_mount: bool,
}

impl StorageConfig {
    pub open spec fn view(self) -> StorageConfigView {
        StorageConfigView {
            path: self.path@,
            mount_point: self.mount_point@,
            auto_mount: self.auto_mount,
        }
    }
}

impl Clone for StorageConfig {
    fn clone(&self) -> (r: Self)
        ensures
            r@ == self@,
    {
        StorageConfig {
            path: self.path.clone(),
            mount_point: self.mount_point.clone(),
            auto_mount: self.auto_mount,
        }
    }
}

/// What is remembered from one run to the next.
#[derive(Debug)]
pub struct Config {
    pub storages: Vec<StorageConfig>,
}

impl Config {
    pub open spec fn view(self) -> Seq<StorageConfigView> {
        self.storages@.map_values(|s: StorageConfig| s@)
    }
}

impl Clone for Config {
    fn clone(&self) -> (r: Self)
        ensures
            r@ == self@,
    {
        let mut storages: Vec<StorageConfig> = Vec::new();
        let mut i: usize = 0;
        #[verifier::loop_isolation(false)]
        while i < self.storages.len()
            invariant
                i <= self.storages.len(),
                storages.len() == i,
                forall|k: int| 0 <= k < i ==> (#[trigger] storages@[k])@ == self.storages@[k]@,
            decreases self.storages.len() - i,
        {
            let copy: StorageConfig = self.storages[i].clone();
            storages.push(copy);
            i += 1;
        }
        let r = Config { storages };
        assert(r@ =~= self@);
        r
    }
}

} // verus!
