# platform_drivers

Drivers for a set of platform devices, verified with Verus: interrupt controllers
(`plic`, `aia`), an address translation unit (`iommu`), PCI hosts (`pci`), an Ethernet
controller (`gmac`), USB host controllers (`usb`), small board devices (`rtc`, `wdt`,
`tsensor`, `i2c`, `spi`) and the packet parser of a network stack (`net`).

Every driver computes on plain values. What it does to a device goes through a `Port`
(`port`): a function of the caller's performs each access, and the contracts speak of
the sequence of accesses and of what came back, so they hold for every device. Work
that the kernel does in between (registering, reserving, running a command) is a step
that a verified function asks for, and an event that it is told.

- `src/` is the verified library.
- `tests/` runs it against simulated devices.
- `app/` performs the accesses on a machine and binds the drivers to its services.
