//! Servers rented from Hetzner for a surge.
//!
//! A fresh server installs the node from its cloud-init, joins the mesh through the relay and offers
//! itself as a host. Nothing is configured per server.
use vstd::prelude::*;
use vstd::string::*;

use crate::fleet::{CapacitySource, RegionHint};
use crate::text::same_text;

verus! {

/// The name of the provider.
pub const PROVIDER: &'static str = "hetzner";

/// How large a server is.
#[derive(Debug, Clone, Copy, PartialEq, Eq, Structural)]
pub enum Size {
    Small,
    Medium,
    Large,
}

impl Size {
    /// The provider's name for the size.
    pub fn server_type(&self) -> (s: &'static str)
        ensures
            s@ == (match *self {
                Size::Small => "cpx21"@,
                Size::Medium => "cpx31"@,
                Size::Large => "cpx41"@,
            }),
    {
        match self {
            Size::Small => "cpx21",
            Size::Medium => "cpx31",
            Size::Large => "cpx41",
        }
    }

    /// How many cells a server of the size hosts.
    pub fn cell_budget(&self) -> (n: u32)
        ensures
            n == (match *self {
                Size::Small => 3u32,
                Size::Medium => 6,
                Size::Large => 14,
            }),
    {
        match self {
            Size::Small => 3,
            Size::Medium => 6,
            Size::Large => 14,
        }
    }
}

/// The datacentre that is nearest to a region.
pub open spec fn datacentre(region: Seq<char>) -> Seq<char> {
    if region == "us-east"@ || region == "us"@ {
        "ash"@
    } else if region == "us-west"@ {
        "hil"@
    } else if region == "ap"@ || region == "asia"@ {
        "sin"@
    } else {
        "fsn1"@
    }
}

/// The datacentre that is nearest to a region.
pub fn location_for(region: &RegionHint) -> (s: &'static str)
    ensures
        s@ == datacentre(region@),
{
    let r: &str = region.0.as_str();
    if same_text(r, "us-east") || same_text(r, "us") {
        "ash"
    } else if same_text(r, "us-west") {
        "hil"
    } else if same_text(r, "ap") || same_text(r, "asia") {
        "sin"
    } else {
        "fsn1"
    }
}

/// The installation, up to the address of the relay.
pub const INIT_HEAD: &'static str = "#cloud-config\n\
    package_update: true\n\
    runcmd:\n\
    \x20 - curl -sSL https://raw.githubusercontent.com/ce-net/ce/main/install.sh | bash\n\
    \x20 - |\n\
    \x20   cat >/etc/systemd/system/ce.service <<UNIT\n\
    \x20   [Unit]\n\
    \x20   Description=ce node (spacegame burst host)\n\
    \x20   After=network-online.target\n\
    \x20   [Service]\n\
    \x20   Environment=CE_BOOTSTRAP_PEERS=";

/// The node, up to the name of the image in a remark.
pub const INIT_NODE: &'static str = "\n\
    \x20   ExecStart=/usr/local/bin/ce start --no-mine --light\n\
    \x20   Restart=always\n\
    \x20   [Install]\n\
    \x20   WantedBy=multi-user.target\n\
    \x20   UNIT\n\
    \x20 - systemctl enable --now ce\n\
    \x20 - |\n\
    \x20   cat >/etc/systemd/system/spacegame-cell.service <<UNIT\n\
    \x20   [Unit]\n\
    \x20   Description=spacegame cell host\n\
    \x20   After=ce.service\n\
    \x20   [Service]\n\
    \x20   # The node self-advertises hosting capacity; controllers place cells here over the mesh\n\
    \x20   # (mesh_deploy of ";

/// The cell host, up to the name of the image that it runs.
pub const INIT_CELL: &'static str = "). Nothing to configure per-cell — the galaxy decides.\n\
    \x20   ExecStart=/usr/local/bin/spacegame node --host-only --image ";

/// The rest.
pub const INIT_TAIL: &'static str = "\n\
    \x20   Restart=always\n\
    \x20   [Install]\n\
    \x20   WantedBy=multi-user.target\n\
    \x20   UNIT\n\
    \x20 - systemctl enable --now spacegame-cell\n";

/// The cloud-init of a host: it installs a node that joins the mesh through the relay, and runs the
/// image on it.
pub fn cloud_init(cell_image: &str, relay_multiaddr: &str) -> (s: String)
    ensures
        s@ == INIT_HEAD@ + relay_multiaddr@ + INIT_NODE@ + cell_image@ + INIT_CELL@ + cell_image@
            + INIT_TAIL@,
{
    let mut s: String = INIT_HEAD.to_string();
    s.append(relay_multiaddr);
    s.append(INIT_NODE);
    s.append(cell_image);
    s.append(INIT_CELL);
    s.append(cell_image);
    s.append(INIT_TAIL);
    s
}

/// The provider: where its servers join, how large they are and what they cost.
pub struct HetznerBurst {
    pub api_token: String,
    pub relay_multiaddr: String,
    pub size: Size,
    pub price_per_min: u128,
}

impl HetznerBurst {
    pub fn name(&self) -> (s: &'static str)
        ensures
            s@ == PROVIDER@,
    {
        PROVIDER
    }

    /// What a node-minute costs, as far as it can be told in 64 bits.
    pub fn price_per_min(&self, region: &RegionHint) -> (p: u64)
        ensures
            p == (if self.price_per_min < u64::MAX {
                self.price_per_min as int
            } else {
                u64::MAX as int
            }),
    {
        if self.price_per_min < u64::MAX as u128 {
            self.price_per_min as u64
        } else {
            u64::MAX
        }
    }

    /// Where a node came from that this provider made: the fleet may take it down again.
    pub fn source(region: &RegionHint, instance_id: String) -> (s: CapacitySource)
        ensures
            s matches CapacitySource::CloudBurst { provider, region: r, instance_id: i } && provider@
                == PROVIDER@ && r@ == region@ && i == instance_id,
    {
        CapacitySource::CloudBurst {
            provider: PROVIDER.to_string(),
            region: region.0.clone(),
            instance_id,
        }
    }
}

} // verus!
