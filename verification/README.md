# simcan

A small simulation of a CAN bus, verified with Verus.

- `src/canframe.rs`: `CANFrame`, a data frame held as three 32-bit words:
  building it, setting its control bits, writing and reading its data bytes,
  and bit stuffing before it goes on the bus.
- `src/stream.rs`: the frame as a stream of 96 bits, bit stuffing as the CAN
  standard states it, and the proof that the frame's windowed stuffing gives it.
- `src/layout.rs`: where the control bits and data bytes sit in the words.
- `src/order.rs`: equality and ordering of frames.
- `src/bus.rs`: a bus that keeps the frame with the lowest key.
- `src/ecu.rs`: a node that sends text over a bus and reads it back. What it
  reads back is the data of the frame as sent, after bit stuffing, decoded as
  UTF-8; stuffing moves the data bits, so that text differs from the text sent
  in general. Where those bytes are not valid UTF-8, it gives back the text as
  written into the frame before stuffing, padded with NULs to eight
  characters.
- `src/encoder.rs`: text to bytes and back.
- `src/lib.rs`: a bus that carries raw bytes in a buffer.
- `app/main.rs`: a driver that shares one bus between two nodes.
