//! Phandle conventions of the Linux kernel (drivers/of/property.c).
use vstd::prelude::*;

use crate::property::PhandleLink;

verus! {

/// The conventions matched on a property's whole name.
pub open spec fn linux_simple_table() -> Seq<PhandleLink> {
    seq![
        PhandleLink { name: "clocks", size: "#clock-cells" },
        PhandleLink { name: "interconnects", size: "#interconnect-cells" },
        PhandleLink { name: "iommus", size: "#iommu-cells" },
        PhandleLink { name: "mboxes", size: "#mbox-cells" },
        PhandleLink { name: "io-channels", size: "#io-channel-cells" },
        PhandleLink { name: "io-backends", size: "#io-backend-cells" },
        PhandleLink { name: "dmas", size: "#dma-cells" },
        PhandleLink { name: "power-domains", size: "#power-domain-cells" },
        PhandleLink { name: "hwlocks", size: "#hwlock-cells" },
        PhandleLink { name: "extcon", size: "" },
        PhandleLink { name: "nvmem-cells", size: "#nvmem-cell-cells" },
        PhandleLink { name: "phys", size: "#phy-cells" },
        PhandleLink { name: "wakeup-parent", size: "" },
        PhandleLink { name: "pinctrl-0", size: "" },
        PhandleLink { name: "pinctrl-1", size: "" },
        PhandleLink { name: "pinctrl-2", size: "" },
        PhandleLink { name: "pinctrl-3", size: "" },
        PhandleLink { name: "pinctrl-4", size: "" },
        PhandleLink { name: "pinctrl-5", size: "" },
        PhandleLink { name: "pinctrl-6", size: "" },
        PhandleLink { name: "pinctrl-7", size: "" },
        PhandleLink { name: "pinctrl-8", size: "" },
        PhandleLink { name: "pwms", size: "#pwm-cells" },
        PhandleLink { name: "resets", size: "#reset-cells" },
        PhandleLink { name: "leds", size: "" },
        PhandleLink { name: "backlight", size: "" },
        PhandleLink { name: "panel", size: "" },
        PhandleLink { name: "msi-parent", size: "#msi-cells" },
        PhandleLink { name: "post-init-providers", size: "" },
        PhandleLink { name: "access-controllers", size: "#access-controller-cells" },
        PhandleLink { name: "pses", size: "#pse-cells" },
        PhandleLink { name: "power-supplies", size: "" },
    ]
}

/// The conventions matched on the end of a property's name, in the order they are tried.
pub open spec fn linux_suffix_table() -> Seq<PhandleLink> {
    seq![
        PhandleLink { name: "-supply", size: "" },
        PhandleLink { name: "-gpio", size: "#gpio-cells" },
    ]
}

/// Properties that hold phandle arrays, matched on their whole name.
pub fn linux_phandle_properties_simple_list() -> (r: Vec<PhandleLink>)
    ensures
        r@ == linux_simple_table(),
{
    let r = vec![
        PhandleLink { name: "clocks", size: "#clock-cells" },
        PhandleLink { name: "interconnects", size: "#interconnect-cells" },
        PhandleLink { name: "iommus", size: "#iommu-cells" },
        PhandleLink { name: "mboxes", size: "#mbox-cells" },
        PhandleLink { name: "io-channels", size: "#io-channel-cells" },
        PhandleLink { name: "io-backends", size: "#io-backend-cells" },
        PhandleLink { name: "dmas", size: "#dma-cells" },
        PhandleLink { name: "power-domains", size: "#power-domain-cells" },
        PhandleLink { name: "hwlocks", size: "#hwlock-cells" },
        PhandleLink { name: "extcon", size: "" },
        PhandleLink { name: "nvmem-cells", size: "#nvmem-cell-cells" },
        PhandleLink { name: "phys", size: "#phy-cells" },
        PhandleLink { name: "wakeup-parent", size: "" },
        PhandleLink { name: "pinctrl-0", size: "" },
        PhandleLink { name: "pinctrl-1", size: "" },
        PhandleLink { name: "pinctrl-2", size: "" },
        PhandleLink { name: "pinctrl-3", size: "" },
        PhandleLink { name: "pinctrl-4", size: "" },
        PhandleLink { name: "pinctrl-5", size: "" },
        PhandleLink { name: "pinctrl-6", size: "" },
        PhandleLink { name: "pinctrl-7", size: "" },
        PhandleLink { name: "pinctrl-8", size: "" },
        PhandleLink { name: "pwms", size: "#pwm-cells" },
        PhandleLink { name: "resets", size: "#reset-cells" },
        PhandleLink { name: "leds", size: "" },
        PhandleLink { name: "backlight", size: "" },
        PhandleLink { name: "panel", size: "" },
        PhandleLink { name: "msi-parent", size: "#msi-cells" },
        PhandleLink { name: "post-init-providers", size: "" },
        PhandleLink { name: "access-controllers", size: "#access-controller-cells" },
        PhandleLink { name: "pses", size: "#pse-cells" },
        PhandleLink { name: "power-supplies", size: "" },
    ];
    assert(r@ =~= linux_simple_table());
    r
}

/// Properties that hold phandle arrays, matched on the end of their name.
pub fn linux_phandle_properties_suffix_list() -> (r: Vec<PhandleLink>)
    ensures
        r@ == linux_suffix_table(),
{
    let r = vec![
        PhandleLink { name: "-supply", size: "" },
        PhandleLink { name: "-gpio", size: "#gpio-cells" },
    ];
    assert(r@ =~= linux_suffix_table());
    r
}

} // verus!
