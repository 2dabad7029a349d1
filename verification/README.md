# kata_device_plugin (verified core)

The decision logic of a read-only Kubernetes device plugin for GPU
passthrough into Kata VMs, written in Verus.

- `src/vfio.rs` — the resource table, first-match classification of IOMMUFD
  cdevs by PCI identity, alias and SKU naming (sanitization of PCI ID
  database names), and grouping of devices by advertised name in ascending
  name order.
- `src/cli.rs` — the `--resource-naming=alias|sku` flag.
- `src/reconcile.rs` — which resource servers the rescan loop starts.
- `src/text.rs` — character-level helpers (whitespace, trimming, code point
  order) with their specifications.
- `src/labels.rs` — the node label that marks NVLink fabric attachment.
- `app/main.rs` — the daemon: process arguments, sysfs enumeration, tasks.
