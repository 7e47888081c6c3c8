//! What an embedding stages for the next machine, and how it asks the current
//! one about native disk operations.

use vstd::prelude::*;
use crate::text::{chars_of, lossy_text, string_of, text_of};
use crate::virtio::{BlockRequestKind, DEFAULT_MAC};

verus! {

/// Images and settings that were staged.
pub struct Staged {
    pub opensbi: Vec<u8>,
    pub kernel: Vec<u8>,
    pub initrd: Vec<u8>,
    pub disk: Vec<u8>,
    pub cmdline: Vec<u8>,
    pub net_mac: Vec<u8>,
    pub net_on: bool,
    pub external_disk_size: u64,
}

/// What the next machine is to have beside its images.
pub struct BootChoices {
    pub cmdline: String,
    /// Whether there is an initial RAM disk.
    pub initrd: bool,
    pub disk: Option<Vec<u8>>,
    pub external_disk_size: Option<u64>,
    pub net: Option<[u8; 6]>,
}

/// The command line of a machine that was given none.
pub open spec fn default_cmdline() -> Seq<char> {
    "console=ttyS0 root=/dev/vda rw"@
}

/// The address that was staged, or the default where it is no address.
pub open spec fn mac_of(staged: Seq<u8>) -> Seq<u8> {
    if staged.len() == 6 {
        staged
    } else {
        DEFAULT_MAC@
    }
}

fn mac(staged: &[u8]) -> (mac: [u8; 6])
    ensures
        mac@ == mac_of(staged@),
{
    if staged.len() != 6 {
        return DEFAULT_MAC;
    }
    let mac: [u8; 6] = [staged[0], staged[1], staged[2], staged[3], staged[4], staged[5]];
    assert(mac@ =~= staged@);
    mac
}

impl Staged {
    pub fn new() -> (s: Staged)
        ensures
            s.opensbi@.len() == 0 && s.kernel@.len() == 0 && s.initrd@.len() == 0,
            s.disk@.len() == 0 && s.cmdline@.len() == 0 && s.net_mac@.len() == 0,
            !s.net_on && s.external_disk_size == 0,
    {
        Staged {
            opensbi: Vec::new(),
            kernel: Vec::new(),
            initrd: Vec::new(),
            disk: Vec::new(),
            cmdline: Vec::new(),
            net_mac: Vec::new(),
            net_on: false,
            external_disk_size: 0,
        }
    }

    /// Choose what the next machine has: a disk image goes to the machine, and a
    /// native disk is used only where there is no image.
    pub fn choose_boot(&mut self) -> (choices: BootChoices)
        ensures
            choices.cmdline@ == if text_of(old(self).cmdline@).len() == 0 {
                default_cmdline()
            } else {
                text_of(old(self).cmdline@)
            },
            choices.initrd == (old(self).initrd@.len() > 0),
            match choices.disk {
                Some(disk) => old(self).disk@.len() > 0 && disk@ == old(self).disk@,
                None => old(self).disk@.len() == 0,
            },
            choices.external_disk_size == if old(self).disk@.len() == 0 && old(
                self,
            ).external_disk_size != 0 {
                Some(old(self).external_disk_size)
            } else {
                None
            },
            match choices.net {
                Some(mac) => old(self).net_on && mac@ == mac_of(old(self).net_mac@),
                None => !old(self).net_on,
            },
            final(self).disk@.len() == 0,
            final(self).opensbi == old(self).opensbi,
            final(self).kernel == old(self).kernel,
            final(self).initrd == old(self).initrd,
            final(self).cmdline == old(self).cmdline,
            final(self).net_mac == old(self).net_mac,
            final(self).net_on == old(self).net_on,
            final(self).external_disk_size == old(self).external_disk_size,
    {
        let text: String = lossy_text(self.cmdline.as_slice());
        let given: Vec<char> = chars_of(text.as_str());
        let cmdline: String = if given.len() == 0 {
            string_of(chars_of("console=ttyS0 root=/dev/vda rw").as_slice())
        } else {
            text
        };
        let net: Option<[u8; 6]> = if self.net_on {
            Some(mac(self.net_mac.as_slice()))
        } else {
            None
        };
        let mut image: Vec<u8> = Vec::new();
        core::mem::swap(&mut image, &mut self.disk);
        let disk: Option<Vec<u8>> = if image.len() > 0 {
            Some(image)
        } else {
            None
        };
        let external_disk_size: Option<u64> = if disk.is_none() && self.external_disk_size != 0 {
            Some(self.external_disk_size)
        } else {
            None
        };
        BootChoices {
            cmdline,
            initrd: self.initrd.len() > 0,
            disk,
            external_disk_size,
            net,
        }
    }

    /// Forget what the machine has taken.
    pub fn clear_images(&mut self)
        ensures
            final(self).opensbi@.len() == 0 && final(self).kernel@.len() == 0,
            final(self).initrd@.len() == 0 && final(self).cmdline@.len() == 0,
            final(self).external_disk_size == 0,
            final(self).disk == old(self).disk,
            final(self).net_mac == old(self).net_mac,
            final(self).net_on == old(self).net_on,
    {
        self.opensbi.clear();
        self.kernel.clear();
        self.initrd.clear();
        self.cmdline.clear();
        self.external_disk_size = 0;
    }
}

/// The kind of a pending native disk operation: 1=read, 2=write, 3=flush.
pub fn virt_disk_request_kind(kind: Option<BlockRequestKind>) -> (n: u32)
    ensures
        n == match kind {
            None => 0u32,
            Some(BlockRequestKind::Read) => 1,
            Some(BlockRequestKind::Write) => 2,
            Some(BlockRequestKind::Flush) => 3,
        },
{
    match kind {
        None => 0,
        Some(BlockRequestKind::Read) => 1,
        Some(BlockRequestKind::Write) => 2,
        Some(BlockRequestKind::Flush) => 3,
    }
}

/// What the host was told since this was last asked: every user-visible event is
/// noted, so that a long run can yield before they pile up.
#[derive(Debug, Clone, Copy, PartialEq, Eq, Structural)]
pub struct HostEvents {
    pub queued: bool,
}

impl HostEvents {
    /// Begin a run.
    pub fn begin(&mut self)
        ensures
            !final(self).queued,
    {
        self.queued = false;
    }

    /// Note an event.
    pub fn note(&mut self)
        ensures
            final(self).queued,
    {
        self.queued = true;
    }

    /// Whether there was an event since this was last asked.
    pub fn take(&mut self) -> (r: bool)
        ensures
            r == old(self).queued,
            !final(self).queued,
    {
        let queued: bool = self.queued;
        self.queued = false;
        queued
    }
}

} // verus!
