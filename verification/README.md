# photon_pipeline

A builder for RGBA image pipelines. Colour operations (gray-scale, monochrome,
invert, channel shifts) are queued and applied to every pixel in one pass;
channel swaps and 3x3 filters first apply the queue.

- `src/image.rs`: interleaved (`PhotonImage`) and planar (`PlanarImage`) images
  and the conversions between them.
- `src/ops.rs`: the colour operations, their meaning on a pixel and on an image,
  and their laws (one fused pass equals the operations in sequence, invert is an
  involution, ...).
- `src/pipeline.rs`: the `Pipeline` builder.
- `src/spatial_ops.rs`: direct and separable 3x3 filters with integer weights,
  the alpha-restoring rule, and the named filters of the pipeline.
- `app/lib.rs`: a serde-enabled copy of `PlanarImage` and the filters whose
  weights are floats.

Every function in `src/` is verified with Verus against a contract stated over
the abstract views (`@`) of the images.
